use armfortas::ir::inst::{BlockParam, CmpOp, Function, Inst, InstKind, Module, Terminator, ValueId};
use armfortas::ir::loops::find_natural_loops;
use armfortas::ir::types::{FloatWidth, IntWidth, IrType};
use armfortas::ir::verify::verify_module;
use armfortas::lexer::{Position, Span};
use armfortas::opt::bce::Bce;
use armfortas::opt::const_fold::ConstFold;
use armfortas::opt::const_prop::ConstProp;
use armfortas::opt::cse::LocalCse;
use armfortas::opt::dce::Dce;
use armfortas::opt::dse::Dse;
use armfortas::opt::floats::{FloatBin, FloatReply, FloatRequest, FloatUn};
use armfortas::opt::pass::Pass;
use armfortas::target::TargetLayout;

/// Runs the passes in turn until none of them changes anything.
fn run_passes(m: &mut Module) {
    loop {
        let mut changed = ConstFold { floats: evaluate }.run(m);
        changed |= ConstProp.run(m);
        changed |= LocalCse.run(m);
        changed |= Dse.run(m);
        changed |= Bce.run(m);
        changed |= Dce.run(m);
        if !changed {
            return;
        }
    }
}

/// Answers floating-point questions with the arithmetic of the machine.
fn evaluate(q: FloatRequest) -> FloatReply {
    match q {
        FloatRequest::Binary(op, a, b) => {
            let (x, y) = (f64::from_bits(a), f64::from_bits(b));
            let r = match op {
                FloatBin::Add => x + y,
                FloatBin::Sub => x - y,
                FloatBin::Mul => x * y,
                FloatBin::Div => x / y,
                FloatBin::Pow => x.powf(y),
            };
            FloatReply::Bits(r.to_bits())
        }
        FloatRequest::Unary(op, a) => {
            let x = f64::from_bits(a);
            let r = match op {
                FloatUn::Neg => -x,
                FloatUn::Abs => x.abs(),
                FloatUn::Sqrt => x.sqrt(),
            };
            FloatReply::Bits(r.to_bits())
        }
        FloatRequest::Round(a) => {
            FloatReply::Bits(((f64::from_bits(a) as f32) as f64).to_bits())
        }
        FloatRequest::Compare(op, a, b) => {
            let (x, y) = (f64::from_bits(a), f64::from_bits(b));
            FloatReply::Truth(match op {
                CmpOp::Eq => x == y,
                CmpOp::Ne => x != y,
                CmpOp::Lt => x < y,
                CmpOp::Le => x <= y,
                CmpOp::Gt => x > y,
                CmpOp::Ge => x >= y,
            })
        }
        FloatRequest::FromInt(n, w) => FloatReply::Bits(match w {
            FloatWidth::F32 => ((n as f32) as f64).to_bits(),
            FloatWidth::F64 => (n as f64).to_bits(),
        }),
        FloatRequest::Truncate(a) => {
            let x = f64::from_bits(a);
            FloatReply::Whole(if x.is_finite() { Some(x.trunc() as i128) } else { None })
        }
    }
}

fn bits(v: f64) -> u64 {
    v.to_bits()
}

fn dummy_span() -> Span {
    let p = Position { line: 1, col: 1 };
    Span { start: p, end: p, file_id: 0 }
}

fn push(f: &mut Function, kind: InstKind, ty: IrType) -> ValueId {
    let id = f.next_value_id();
    let entry = f.entry;
    f.block_mut(entry).insts.push(Inst { id, kind, ty, span: dummy_span() });
    id
}

#[test]
fn audit_const_fold_int_to_f32_must_round() {
    let mut m = Module::new("t".into(), TargetLayout::LP64);
    let mut f = Function::new("f".into(), vec![], IrType::Float(FloatWidth::F32));
    let i = push(&mut f, InstKind::ConstInt(16_777_217, IntWidth::I32), IrType::Int(IntWidth::I32));
    let cv = push(&mut f, InstKind::IntToFloat(i, FloatWidth::F32), IrType::Float(FloatWidth::F32));
    let entry = f.entry;
    f.block_mut(entry).terminator = Some(Terminator::Return(Some(cv)));
    m.add_function(f);

    ConstFold { floats: evaluate }.run(&mut m);
    let folded = m.functions[0].blocks[0].insts.iter().find(|i| i.id == cv).unwrap();
    match folded.kind {
        InstKind::ConstFloat(v, FloatWidth::F32) => {
            let v = f64::from_bits(v);
            assert_eq!(v, 16_777_216.0,
                "expected f32-precision result 16_777_216.0, got {}", v);
        }
        ref other => panic!("expected ConstFloat, got {:?}", other),
    }
}

#[test]
fn audit_const_fold_float_trunc_must_round() {
    let mut m = Module::new("t".into(), TargetLayout::LP64);
    let mut f = Function::new("f".into(), vec![], IrType::Float(FloatWidth::F32));
    let d = push(&mut f, InstKind::ConstFloat(bits(16_777_217.0), FloatWidth::F64), IrType::Float(FloatWidth::F64));
    let cv = push(&mut f, InstKind::FloatTrunc(d, FloatWidth::F32), IrType::Float(FloatWidth::F32));
    let entry = f.entry;
    f.block_mut(entry).terminator = Some(Terminator::Return(Some(cv)));
    m.add_function(f);

    ConstFold { floats: evaluate }.run(&mut m);
    let folded = m.functions[0].blocks[0].insts.iter().find(|i| i.id == cv).unwrap();
    match folded.kind {
        InstKind::ConstFloat(v, FloatWidth::F32) => {
            let v = f64::from_bits(v);
            assert_eq!(v, 16_777_216.0, "expected f32-rounded value, got {}", v);
        }
        _ => panic!(),
    }
}

#[test]
fn audit_const_fold_idiv_i8_min_neg_one() {
    let mut m = Module::new("t".into(), TargetLayout::LP64);
    let mut f = Function::new("f".into(), vec![], IrType::Int(IntWidth::I8));
    let a = push(&mut f, InstKind::ConstInt(-128, IntWidth::I8), IrType::Int(IntWidth::I8));
    let b = push(&mut f, InstKind::ConstInt(-1, IntWidth::I8), IrType::Int(IntWidth::I8));
    let q = push(&mut f, InstKind::IDiv(a, b), IrType::Int(IntWidth::I8));
    let entry = f.entry;
    f.block_mut(entry).terminator = Some(Terminator::Return(Some(q)));
    m.add_function(f);

    ConstFold { floats: evaluate }.run(&mut m);
    let folded = m.functions[0].blocks[0].insts.iter().find(|i| i.id == q).unwrap();
    // Either we fold to -128 (match hardware), or we leave the IDiv alone.
    // Anything else would be a divergence.
    match folded.kind {
        InstKind::ConstInt(v, IntWidth::I8) => assert_eq!(v, -128,
            "expected -128 (i8 wraparound), got {}", v),
        InstKind::IDiv(..) => { /* left alone, also acceptable */ }
        ref other => panic!("unexpected fold: {:?}", other),
    }
}

#[test]
fn audit_dce_removes_dead_block_param() {
    let mut m = Module::new("t".into(), TargetLayout::LP64);
    let mut f = Function::new("f".into(), vec![], IrType::Void);
    let target = f.create_block("target");
    let param_id = f.next_value_id();
    f.block_mut(target).params.push(BlockParam {
        id: param_id,
        ty: IrType::Int(IntWidth::I32),
    });
    let init = push(&mut f, InstKind::ConstInt(0, IntWidth::I32), IrType::Int(IntWidth::I32));
    let entry = f.entry;
    f.block_mut(entry).terminator = Some(Terminator::Branch(target, vec![init]));
    f.block_mut(target).terminator = Some(Terminator::Return(None));
    m.add_function(f);

    assert!(Dce.run(&mut m), "DCE should report change");
    let f = &m.functions[0];
    assert_eq!(f.block(target).params.len(), 0, "dead block param must be removed");
    // The predecessor's branch arg list must shrink in lockstep.
    let entry_term = f.block(f.entry).terminator.as_ref().unwrap();
    match entry_term {
        Terminator::Branch(_, args) => assert_eq!(args.len(), 0,
            "predecessor branch arg must be dropped alongside the dead param"),
        _ => panic!(),
    }
    // The const(0) inst is now unreferenced and should also be DCE'd.
    let const_remains = f.blocks.iter()
        .flat_map(|b| b.insts.iter())
        .any(|i| matches!(i.kind, InstKind::ConstInt(0, _)));
    assert!(!const_remains, "const(0) should also be DCE'd after its only use disappears");
}

#[test]
fn audit_dce_keeps_live_block_param() {
    // A block param that IS used inside the block must NOT be removed.
    let mut m = Module::new("t".into(), TargetLayout::LP64);
    let mut f = Function::new("f".into(), vec![], IrType::Int(IntWidth::I32));
    let target = f.create_block("target");
    let param_id = f.next_value_id();
    f.block_mut(target).params.push(BlockParam {
        id: param_id,
        ty: IrType::Int(IntWidth::I32),
    });
    let init = push(&mut f, InstKind::ConstInt(7, IntWidth::I32), IrType::Int(IntWidth::I32));
    let entry = f.entry;
    f.block_mut(entry).terminator = Some(Terminator::Branch(target, vec![init]));
    f.block_mut(target).terminator = Some(Terminator::Return(Some(param_id)));
    m.add_function(f);

    Dce.run(&mut m);
    let f = &m.functions[0];
    assert_eq!(f.block(target).params.len(), 1, "live block param must survive");
}

#[test]
fn audit_dce_removes_one_of_two_block_params_keeps_correct_arg() {
    // target(p0:i32, p1:i32): ret p1
    // entry: br target(c0, c1)
    // p0 is dead, p1 is live. Removing p0 must drop the matching
    // arg slot but keep p1 → c1.
    let mut m = Module::new("t".into(), TargetLayout::LP64);
    let mut f = Function::new("f".into(), vec![], IrType::Int(IntWidth::I32));
    let target = f.create_block("target");
    let p0 = f.next_value_id();
    let p1 = f.next_value_id();
    f.block_mut(target).params.push(BlockParam { id: p0, ty: IrType::Int(IntWidth::I32) });
    f.block_mut(target).params.push(BlockParam { id: p1, ty: IrType::Int(IntWidth::I32) });
    let c0 = push(&mut f, InstKind::ConstInt(10, IntWidth::I32), IrType::Int(IntWidth::I32));
    let c1 = push(&mut f, InstKind::ConstInt(20, IntWidth::I32), IrType::Int(IntWidth::I32));
    let entry = f.entry;
    f.block_mut(entry).terminator = Some(Terminator::Branch(target, vec![c0, c1]));
    f.block_mut(target).terminator = Some(Terminator::Return(Some(p1)));
    m.add_function(f);

    Dce.run(&mut m);

    let f = &m.functions[0];
    let target_block = f.block(target);
    assert_eq!(target_block.params.len(), 1, "p0 should be removed");
    assert_eq!(target_block.params[0].id, p1, "p1 should remain at index 0");

    let entry_term = f.block(f.entry).terminator.as_ref().unwrap();
    match entry_term {
        Terminator::Branch(_, args) => {
            assert_eq!(args.len(), 1);
            assert_eq!(args[0], c1, "the surviving arg must be c1, not c0");
        }
        _ => panic!(),
    }

    // Now const(10) is dead — should also be gone after the
    // outer-loop re-runs the inner DCE.
    let c0_remains = f.blocks.iter()
        .flat_map(|b| b.insts.iter())
        .any(|i| i.id == c0);
    assert!(!c0_remains, "const(10) should be DCE'd after its arg slot is gone");
}

#[test]
fn audit_dce_cascading_across_outer_iterations() {
    let mut m = Module::new("t".into(), TargetLayout::LP64);
    let mut f = Function::new("f".into(), vec![], IrType::Void);

    // entry: computes %c, branches to other
    let c = push(&mut f, InstKind::ConstInt(5, IntWidth::I32), IrType::Int(IntWidth::I32));

    // other: has param p_other, computes %u = ineg p_other, branches to target
    let other = f.create_block("other");
    let p_other = f.next_value_id();
    f.block_mut(other).params.push(BlockParam {
        id: p_other, ty: IrType::Int(IntWidth::I32),
    });
    let u = f.next_value_id();
    f.block_mut(other).insts.push(Inst {
        id: u, kind: InstKind::INeg(p_other),
        ty: IrType::Int(IntWidth::I32), span: dummy_span(),
    });

    // target: has param p_target, returns (p_target never used).
    let target = f.create_block("target");
    let p_target = f.next_value_id();
    f.block_mut(target).params.push(BlockParam {
        id: p_target, ty: IrType::Int(IntWidth::I32),
    });
    f.block_mut(target).terminator = Some(Terminator::Return(None));

    // Wire: entry → other(%c), other → target(%u)
    let entry = f.entry;
    f.block_mut(entry).terminator = Some(Terminator::Branch(other, vec![c]));
    f.block_mut(other).terminator = Some(Terminator::Branch(target, vec![u]));
    m.add_function(f);

    Dce.run(&mut m);

    let f = &m.functions[0];

    // Both block params must be gone.
    assert_eq!(f.block(target).params.len(), 0,
        "p_target should be removed in round 1");
    assert_eq!(f.block(other).params.len(), 0,
        "p_other should be removed in round 2 (cascading)");

    // Entry's branch arg list must be empty.
    match f.block(f.entry).terminator.as_ref().unwrap() {
        Terminator::Branch(_, args) => assert_eq!(args.len(), 0,
            "entry's branch to other should have no args after cascade"),
        _ => panic!(),
    }
    // other's branch to target must also have no args.
    match f.block(other).terminator.as_ref().unwrap() {
        Terminator::Branch(_, args) => assert_eq!(args.len(), 0,
            "other's branch to target should have no args"),
        _ => panic!(),
    }

    // All formerly-live values should be DCE'd: %c, %u.
    let any_inst = f.blocks.iter()
        .flat_map(|b| b.insts.iter())
        .any(|i| i.id == c || i.id == u);
    assert!(!any_inst,
        "dead instructions %c (const) and %u (ineg) should be DCE'd after the cascade");
}

#[test]
fn audit_licm_nested_loop_body_computation() {

    let mut m = Module::new("t".into(), TargetLayout::LP64);
    let mut f = Function::new("f".into(), vec![], IrType::Void);

    let outer_header = f.create_block("outer_header");
    let inner_header = f.create_block("inner_header");
    let inner_latch = f.create_block("inner_latch");
    let outer_latch = f.create_block("outer_latch");
    let exit = f.create_block("exit");
    let entry = f.entry;

    // entry → outer_header
    f.block_mut(entry).terminator = Some(Terminator::Branch(outer_header, vec![]));

    // outer_header: cond_br → inner_header / exit
    let c1 = f.next_value_id();
    f.block_mut(outer_header).insts.push(Inst {
        id: c1,
        kind: InstKind::ConstBool(true),
        ty: IrType::Bool,
        span: dummy_span(),
    });
    f.block_mut(outer_header).terminator = Some(Terminator::CondBranch {
        cond: c1,
        true_dest: inner_header,
        true_args: vec![],
        false_dest: exit,
        false_args: vec![],
    });

    // inner_header: cond_br → inner_latch / outer_latch
    let c2 = f.next_value_id();
    f.block_mut(inner_header).insts.push(Inst {
        id: c2,
        kind: InstKind::ConstBool(true),
        ty: IrType::Bool,
        span: dummy_span(),
    });
    f.block_mut(inner_header).terminator = Some(Terminator::CondBranch {
        cond: c2,
        true_dest: inner_latch,
        true_args: vec![],
        false_dest: outer_latch,
        false_args: vec![],
    });

    // inner_latch → inner_header (back-edge)
    f.block_mut(inner_latch).terminator = Some(Terminator::Branch(inner_header, vec![]));

    // outer_latch → outer_header (back-edge)
    f.block_mut(outer_latch).terminator = Some(Terminator::Branch(outer_header, vec![]));

    // exit: return
    f.block_mut(exit).terminator = Some(Terminator::Return(None));

    m.add_function(f);

    let loops = find_natural_loops(&m.functions[0]);
    assert_eq!(loops.len(), 2, "expected exactly two natural loops");

    // Find the inner and outer loops by their headers.
    let inner = loops.iter().find(|l| l.header == inner_header).expect("inner loop not found");
    let outer = loops.iter().find(|l| l.header == outer_header).expect("outer loop not found");

    // Inner loop body: {inner_header, inner_latch}.
    assert_eq!(inner.body.len(), 2,
        "inner body should be {{inner_header, inner_latch}}, got {:?}", inner.body);
    assert!(inner.body.contains(&inner_header));
    assert!(inner.body.contains(&inner_latch));

    // Outer loop body: {outer_header, inner_header, inner_latch, outer_latch}.
    // MUST NOT contain entry or exit.
    assert_eq!(outer.body.len(), 4,
        "outer body should be {{outer_header, inner_header, inner_latch, outer_latch}}, got {:?}",
        outer.body);
    assert!(outer.body.contains(&outer_header));
    assert!(outer.body.contains(&inner_header));
    assert!(outer.body.contains(&inner_latch));
    assert!(outer.body.contains(&outer_latch));
    assert!(!outer.body.contains(&entry), "outer body must not include entry");
    assert!(!outer.body.contains(&exit), "outer body must not include exit");
}

#[test]
fn audit_licm_multi_latch_with_self_loop() {

    let mut m = Module::new("t".into(), TargetLayout::LP64);
    let mut f = Function::new("f".into(), vec![], IrType::Void);
    let header = f.create_block("header");
    let other = f.create_block("other");
    let exit = f.create_block("exit");
    let entry = f.entry;

    // entry → header
    f.block_mut(entry).terminator = Some(Terminator::Branch(header, vec![]));
    // header → header (true) or other (false), with cond
    let cond = f.next_value_id();
    f.block_mut(header).insts.push(Inst {
        id: cond,
        kind: InstKind::ConstBool(true),
        ty: IrType::Bool,
        span: dummy_span(),
    });
    f.block_mut(header).terminator = Some(Terminator::CondBranch {
        cond,
        true_dest: header,
        true_args: vec![],
        false_dest: other,
        false_args: vec![],
    });
    // other → header (back edge) or exit
    let cond2 = f.next_value_id();
    f.block_mut(other).insts.push(Inst {
        id: cond2,
        kind: InstKind::ConstBool(false),
        ty: IrType::Bool,
        span: dummy_span(),
    });
    f.block_mut(other).terminator = Some(Terminator::CondBranch {
        cond: cond2,
        true_dest: header,
        true_args: vec![],
        false_dest: exit,
        false_args: vec![],
    });
    f.block_mut(exit).terminator = Some(Terminator::Return(None));
    m.add_function(f);

    let loops = find_natural_loops(&m.functions[0]);
    assert_eq!(loops.len(), 1, "expected exactly one natural loop");
    let lp = &loops[0];
    assert_eq!(lp.header, header);
    // Body must include header and other, NOT entry.
    assert!(lp.body.contains(&header), "body must include header");
    assert!(lp.body.contains(&other),  "body must include other");
    assert!(!lp.body.contains(&entry), "body must NOT include the preheader (entry)");
    assert!(!lp.body.contains(&exit),  "body must NOT include the exit block");
    // Latches: both header (self-loop) and other (back edge).
    assert_eq!(lp.latches.len(), 2, "expected two latches");
    assert!(lp.latches.contains(&header));
    assert!(lp.latches.contains(&other));
}

#[test]
fn audit_pipeline_o2_e2e_loop_through_passmanager() {

    let mut m = Module::new("t".into(), TargetLayout::LP64);
    let mut f = Function::new("f".into(), vec![], IrType::Void);
    // Build: entry { %0=const 0; br header(%0) }
    //        header(%i:i32) { %k=const 5; %i2=iadd %i, %k; %lim=const 10;
    //                         %d=icmp ge %i, %lim; cbr %d, exit, latch(%i2) }
    //        latch(%i_in:i32) { %1=const 1; %n=iadd %i_in, %1; br header(%n) }
    //        exit { ret }
    let init = push(&mut f, InstKind::ConstInt(0, IntWidth::I32), IrType::Int(IntWidth::I32));

    let header = f.create_block("header");
    let i_param = f.next_value_id();
    f.block_mut(header).params.push(BlockParam { id: i_param, ty: IrType::Int(IntWidth::I32) });

    let k = f.next_value_id();
    f.block_mut(header).insts.push(Inst {
        id: k,
        kind: InstKind::ConstInt(5, IntWidth::I32),
        ty: IrType::Int(IntWidth::I32),
        span: dummy_span(),
    });
    let i2 = f.next_value_id();
    f.block_mut(header).insts.push(Inst {
        id: i2,
        kind: InstKind::IAdd(i_param, k),
        ty: IrType::Int(IntWidth::I32),
        span: dummy_span(),
    });
    let lim = f.next_value_id();
    f.block_mut(header).insts.push(Inst {
        id: lim,
        kind: InstKind::ConstInt(10, IntWidth::I32),
        ty: IrType::Int(IntWidth::I32),
        span: dummy_span(),
    });
    let done = f.next_value_id();
    f.block_mut(header).insts.push(Inst {
        id: done,
        kind: InstKind::ICmp(CmpOp::Ge, i_param, lim),
        ty: IrType::Bool,
        span: dummy_span(),
    });

    let latch = f.create_block("latch");
    let i_in = f.next_value_id();
    f.block_mut(latch).params.push(BlockParam { id: i_in, ty: IrType::Int(IntWidth::I32) });
    let one = f.next_value_id();
    f.block_mut(latch).insts.push(Inst {
        id: one,
        kind: InstKind::ConstInt(1, IntWidth::I32),
        ty: IrType::Int(IntWidth::I32),
        span: dummy_span(),
    });
    let next = f.next_value_id();
    f.block_mut(latch).insts.push(Inst {
        id: next,
        kind: InstKind::IAdd(i_in, one),
        ty: IrType::Int(IntWidth::I32),
        span: dummy_span(),
    });
    f.block_mut(latch).terminator = Some(Terminator::Branch(header, vec![next]));

    let exit = f.create_block("exit");
    f.block_mut(exit).terminator = Some(Terminator::Return(None));

    let entry = f.entry;
    f.block_mut(entry).terminator = Some(Terminator::Branch(header, vec![init]));
    f.block_mut(header).terminator = Some(Terminator::CondBranch {
        cond: done,
        true_dest: exit,
        true_args: vec![],
        false_dest: latch,
        false_args: vec![i2],
    });
    m.add_function(f);

    // verify the input is well-formed
    assert!(verify_module(&m).is_empty(), "test setup invalid");

    run_passes(&mut m);

    // Final IR must verify.
    let errs = verify_module(&m);
    assert!(errs.is_empty(), "O2 pipeline left an invalid module: {:?}", errs);
}

#[test]
fn audit_interaction_const_prop_then_dce_removes_orphan_const() {

    let mut m = Module::new("t".into(), TargetLayout::LP64);
    let mut f = Function::new("f".into(), vec![], IrType::Void);
    let cond = push(&mut f, InstKind::ConstBool(true), IrType::Bool);
    // This constant is ONLY used in the about-to-be-dead else block.
    let dead_only = push(&mut f, InstKind::ConstInt(99, IntWidth::I32), IrType::Int(IntWidth::I32));

    let then_b = f.create_block("then");
    let else_b = f.create_block("else");

    // Use dead_only inside else (will be dropped by const_prop).
    let unused = f.next_value_id();
    f.block_mut(else_b).insts.push(Inst {
        id: unused,
        kind: InstKind::INeg(dead_only),
        ty: IrType::Int(IntWidth::I32),
        span: dummy_span(),
    });
    f.block_mut(else_b).terminator = Some(Terminator::Return(None));
    f.block_mut(then_b).terminator = Some(Terminator::Return(None));

    let entry = f.entry;
    f.block_mut(entry).terminator = Some(Terminator::CondBranch {
        cond,
        true_dest: then_b,
        true_args: vec![],
        false_dest: else_b,
        false_args: vec![],
    });
    m.add_function(f);

    run_passes(&mut m);

    let post = verify_module(&m);
    assert!(post.is_empty(), "post-pipeline IR invalid: {:?}", post);

    // After: else block gone, const(99) and ineg gone too.
    let f = &m.functions[0];
    assert!(!f.blocks.iter().any(|b| b.id == else_b), "else block should be pruned");
    let dead_remains = f.blocks.iter()
        .flat_map(|b| b.insts.iter())
        .any(|i| matches!(i.kind, InstKind::ConstInt(99, _)));
    assert!(!dead_remains, "const(99) should be DCE'd after const_prop drops its only use");
}

#[test]
fn audit_const_fold_shl_at_width_bails() {
    // shl 1_i32, 32_i32 — count equals width, AArch64 masks to 0,
    // so the runtime answer is 1. The fold MUST NOT silently emit 0.
    let mut m = Module::new("t".into(), TargetLayout::LP64);
    let mut f = Function::new("f".into(), vec![], IrType::Int(IntWidth::I32));
    let v = push(&mut f, InstKind::ConstInt(1, IntWidth::I32), IrType::Int(IntWidth::I32));
    let cnt = push(&mut f, InstKind::ConstInt(32, IntWidth::I32), IrType::Int(IntWidth::I32));
    let s = push(&mut f, InstKind::Shl(v, cnt), IrType::Int(IntWidth::I32));
    let entry = f.entry;
    f.block_mut(entry).terminator = Some(Terminator::Return(Some(s)));
    m.add_function(f);

    ConstFold { floats: evaluate }.run(&mut m);
    let folded = m.functions[0].blocks[0].insts.iter().find(|i| i.id == s).unwrap();
    // Acceptable outcomes: leave the Shl alone, OR mask the count.
    // NOT acceptable: ConstInt(0, _).
    if let InstKind::ConstInt(0, _) = folded.kind {
        panic!("shl with count==width folded to 0 — diverges from AArch64 LSL");
    }
}

#[test]
fn audit_const_fold_shl_negative_count_bails() {
    let mut m = Module::new("t".into(), TargetLayout::LP64);
    let mut f = Function::new("f".into(), vec![], IrType::Int(IntWidth::I32));
    let v = push(&mut f, InstKind::ConstInt(7, IntWidth::I32), IrType::Int(IntWidth::I32));
    let cnt = push(&mut f, InstKind::ConstInt(-1, IntWidth::I32), IrType::Int(IntWidth::I32));
    let s = push(&mut f, InstKind::Shl(v, cnt), IrType::Int(IntWidth::I32));
    let entry = f.entry;
    f.block_mut(entry).terminator = Some(Terminator::Return(Some(s)));
    m.add_function(f);

    ConstFold { floats: evaluate }.run(&mut m);
    let folded = m.functions[0].blocks[0].insts.iter().find(|i| i.id == s).unwrap();
    if let InstKind::ConstInt(0, _) = folded.kind {
        panic!("shl with negative count folded to 0 — wrong on AArch64");
    }
}

#[test]
fn audit_const_fold_lshr_negative_count_bails() {
    let mut m = Module::new("t".into(), TargetLayout::LP64);
    let mut f = Function::new("f".into(), vec![], IrType::Int(IntWidth::I32));
    let v = push(&mut f, InstKind::ConstInt(64, IntWidth::I32), IrType::Int(IntWidth::I32));
    let cnt = push(&mut f, InstKind::ConstInt(-2, IntWidth::I32), IrType::Int(IntWidth::I32));
    let s = push(&mut f, InstKind::LShr(v, cnt), IrType::Int(IntWidth::I32));
    let entry = f.entry;
    f.block_mut(entry).terminator = Some(Terminator::Return(Some(s)));
    m.add_function(f);

    ConstFold { floats: evaluate }.run(&mut m);
    let folded = m.functions[0].blocks[0].insts.iter().find(|i| i.id == s).unwrap();
    if let InstKind::ConstInt(0, _) = folded.kind {
        panic!("lshr with negative count folded to 0");
    }
}

#[test]
fn audit_const_fold_width_drift_iadd() {
    // a: ConstInt(255, I8)  = -1 at i8
    // b: ConstInt(2,   I8)  = 2  at i8
    // declared IAdd type: i32
    // Expected: -1 + 2 = 1
    // Pre-fix: 255 + 2 = 257 (wrong)
    let mut m = Module::new("t".into(), TargetLayout::LP64);
    let mut f = Function::new("f".into(), vec![], IrType::Int(IntWidth::I32));
    let a = f.next_value_id();
    f.block_mut(f.entry).insts.push(Inst {
        id: a, kind: InstKind::ConstInt(255, IntWidth::I8),
        ty: IrType::Int(IntWidth::I8), span: dummy_span(),
    });
    let b = f.next_value_id();
    f.block_mut(f.entry).insts.push(Inst {
        id: b, kind: InstKind::ConstInt(2, IntWidth::I8),
        ty: IrType::Int(IntWidth::I8), span: dummy_span(),
    });
    let sum = f.next_value_id();
    f.block_mut(f.entry).insts.push(Inst {
        id: sum, kind: InstKind::IAdd(a, b),
        ty: IrType::Int(IntWidth::I32), span: dummy_span(),
    });
    let entry = f.entry;
    f.block_mut(entry).terminator = Some(Terminator::Return(Some(sum)));
    m.add_function(f);

    ConstFold { floats: evaluate }.run(&mut m);
    let folded = m.functions[0].blocks[0].insts.iter().find(|i| i.id == sum).unwrap();
    match folded.kind {
        InstKind::ConstInt(1, IntWidth::I32) => { /* good */ }
        InstKind::ConstInt(v, w) => panic!(
            "IAdd: expected ConstInt(1, I32), got ConstInt({}, {:?}) — width drift",
            v, w
        ),
        ref other => panic!("expected ConstInt fold, got {:?}", other),
    }
}

#[test]
fn audit_const_fold_width_drift_isub() {
    // a: ConstInt(250, I8)  = -6
    // b: ConstInt(1,   I8)  =  1
    // Expected: -6 - 1 = -7
    let mut m = Module::new("t".into(), TargetLayout::LP64);
    let mut f = Function::new("f".into(), vec![], IrType::Int(IntWidth::I32));
    let a = f.next_value_id();
    f.block_mut(f.entry).insts.push(Inst {
        id: a, kind: InstKind::ConstInt(250, IntWidth::I8),
        ty: IrType::Int(IntWidth::I8), span: dummy_span(),
    });
    let b = f.next_value_id();
    f.block_mut(f.entry).insts.push(Inst {
        id: b, kind: InstKind::ConstInt(1, IntWidth::I8),
        ty: IrType::Int(IntWidth::I8), span: dummy_span(),
    });
    let diff = f.next_value_id();
    f.block_mut(f.entry).insts.push(Inst {
        id: diff, kind: InstKind::ISub(a, b),
        ty: IrType::Int(IntWidth::I32), span: dummy_span(),
    });
    let entry = f.entry;
    f.block_mut(entry).terminator = Some(Terminator::Return(Some(diff)));
    m.add_function(f);

    ConstFold { floats: evaluate }.run(&mut m);
    let folded = m.functions[0].blocks[0].insts.iter().find(|i| i.id == diff).unwrap();
    match folded.kind {
        InstKind::ConstInt(-7, IntWidth::I32) => { /* good */ }
        ref other => panic!("ISub: expected ConstInt(-7, I32), got {:?}", other),
    }
}

#[test]
fn audit_const_fold_width_drift_imul() {
    // a: ConstInt(255, I8)  = -1
    // b: ConstInt(3,   I8)  =  3
    // Expected: -1 * 3 = -3
    let mut m = Module::new("t".into(), TargetLayout::LP64);
    let mut f = Function::new("f".into(), vec![], IrType::Int(IntWidth::I32));
    let a = f.next_value_id();
    f.block_mut(f.entry).insts.push(Inst {
        id: a, kind: InstKind::ConstInt(255, IntWidth::I8),
        ty: IrType::Int(IntWidth::I8), span: dummy_span(),
    });
    let b = f.next_value_id();
    f.block_mut(f.entry).insts.push(Inst {
        id: b, kind: InstKind::ConstInt(3, IntWidth::I8),
        ty: IrType::Int(IntWidth::I8), span: dummy_span(),
    });
    let prod = f.next_value_id();
    f.block_mut(f.entry).insts.push(Inst {
        id: prod, kind: InstKind::IMul(a, b),
        ty: IrType::Int(IntWidth::I32), span: dummy_span(),
    });
    let entry = f.entry;
    f.block_mut(entry).terminator = Some(Terminator::Return(Some(prod)));
    m.add_function(f);

    ConstFold { floats: evaluate }.run(&mut m);
    let folded = m.functions[0].blocks[0].insts.iter().find(|i| i.id == prod).unwrap();
    match folded.kind {
        InstKind::ConstInt(-3, IntWidth::I32) => { /* good */ }
        ref other => panic!("IMul: expected ConstInt(-3, I32), got {:?}", other),
    }
}

#[test]
fn audit_const_fold_width_drift_idiv() {
    // a: ConstInt(255, I8)  = -1
    // b: ConstInt(2,   I8)  =  2
    // Expected: -1 / 2 = 0 (toward zero)
    // Pre-fix: 255 / 2 = 127 (very wrong)
    let mut m = Module::new("t".into(), TargetLayout::LP64);
    let mut f = Function::new("f".into(), vec![], IrType::Int(IntWidth::I32));
    let a = f.next_value_id();
    f.block_mut(f.entry).insts.push(Inst {
        id: a, kind: InstKind::ConstInt(255, IntWidth::I8),
        ty: IrType::Int(IntWidth::I8), span: dummy_span(),
    });
    let b = f.next_value_id();
    f.block_mut(f.entry).insts.push(Inst {
        id: b, kind: InstKind::ConstInt(2, IntWidth::I8),
        ty: IrType::Int(IntWidth::I8), span: dummy_span(),
    });
    let q = f.next_value_id();
    f.block_mut(f.entry).insts.push(Inst {
        id: q, kind: InstKind::IDiv(a, b),
        ty: IrType::Int(IntWidth::I32), span: dummy_span(),
    });
    let entry = f.entry;
    f.block_mut(entry).terminator = Some(Terminator::Return(Some(q)));
    m.add_function(f);

    ConstFold { floats: evaluate }.run(&mut m);
    let folded = m.functions[0].blocks[0].insts.iter().find(|i| i.id == q).unwrap();
    match folded.kind {
        InstKind::ConstInt(0, IntWidth::I32) => { /* good */ }
        ref other => panic!("IDiv: expected ConstInt(0, I32), got {:?}", other),
    }
}

#[test]
fn audit_const_fold_width_drift_icmp() {
    // a: ConstInt(255, I8)  = -1
    // b: ConstInt(0,   I8)  =  0
    // ICmp Lt: -1 < 0 → true
    // Pre-fix (if ICmp also discarded widths): 255 < 0 → false
    let mut m = Module::new("t".into(), TargetLayout::LP64);
    let mut f = Function::new("f".into(), vec![], IrType::Bool);
    let a = f.next_value_id();
    f.block_mut(f.entry).insts.push(Inst {
        id: a, kind: InstKind::ConstInt(255, IntWidth::I8),
        ty: IrType::Int(IntWidth::I8), span: dummy_span(),
    });
    let b = f.next_value_id();
    f.block_mut(f.entry).insts.push(Inst {
        id: b, kind: InstKind::ConstInt(0, IntWidth::I8),
        ty: IrType::Int(IntWidth::I8), span: dummy_span(),
    });
    let lt = f.next_value_id();
    f.block_mut(f.entry).insts.push(Inst {
        id: lt, kind: InstKind::ICmp(CmpOp::Lt, a, b),
        ty: IrType::Bool, span: dummy_span(),
    });
    let entry = f.entry;
    f.block_mut(entry).terminator = Some(Terminator::Return(Some(lt)));
    m.add_function(f);

    ConstFold { floats: evaluate }.run(&mut m);
    let folded = m.functions[0].blocks[0].insts.iter().find(|i| i.id == lt).unwrap();
    match folded.kind {
        InstKind::ConstBool(true) => { /* good */ }
        ref other => panic!("ICmp: expected ConstBool(true), got {:?}", other),
    }
}

#[test]
fn audit_cse_dedupes_const_int_bit_pattern() {
    let mut m = Module::new("t".into(), TargetLayout::LP64);
    let mut f = Function::new("f".into(), vec![], IrType::Int(IntWidth::I8));
    let a = push(&mut f, InstKind::ConstInt(255, IntWidth::I8), IrType::Int(IntWidth::I8));
    let b = push(&mut f, InstKind::ConstInt(-1,  IntWidth::I8), IrType::Int(IntWidth::I8));
    // Use a in some op and b in another so neither is dead.
    let neg_a = push(&mut f, InstKind::INeg(a), IrType::Int(IntWidth::I8));
    let neg_b = push(&mut f, InstKind::INeg(b), IrType::Int(IntWidth::I8));
    // Add them so both are live to the terminator.
    let sum = push(&mut f, InstKind::IAdd(neg_a, neg_b), IrType::Int(IntWidth::I8));
    let entry = f.entry;
    f.block_mut(entry).terminator = Some(Terminator::Return(Some(sum)));
    m.add_function(f);

    LocalCse.run(&mut m);

    // After CSE, one of {a, b} has been rewritten to point at the
    // other. The two INegs should now reference the same value.
    let f = &m.functions[0];
    let neg_a_inst = f.blocks[0].insts.iter().find(|i| i.id == neg_a).unwrap();
    let neg_b_inst = f.blocks[0].insts.iter().find(|i| i.id == neg_b).unwrap();
    let neg_a_op = match &neg_a_inst.kind { InstKind::INeg(v) => *v, _ => panic!() };
    let neg_b_op = match &neg_b_inst.kind { InstKind::INeg(v) => *v, _ => panic!() };
    assert_eq!(neg_a_op, neg_b_op,
        "ConstInt(255, I8) and ConstInt(-1, I8) should CSE-dedupe \
         (both represent -1 at i8 precision), but the INeg operands differ");
}

#[test]
fn audit_const_fold_ashr_negative_count_bails() {
    let mut m = Module::new("t".into(), TargetLayout::LP64);
    let mut f = Function::new("f".into(), vec![], IrType::Int(IntWidth::I32));
    let v = push(&mut f, InstKind::ConstInt(-128, IntWidth::I32), IrType::Int(IntWidth::I32));
    let cnt = push(&mut f, InstKind::ConstInt(-3, IntWidth::I32), IrType::Int(IntWidth::I32));
    let s = push(&mut f, InstKind::AShr(v, cnt), IrType::Int(IntWidth::I32));
    let entry = f.entry;
    f.block_mut(entry).terminator = Some(Terminator::Return(Some(s)));
    m.add_function(f);

    ConstFold { floats: evaluate }.run(&mut m);
    let folded = m.functions[0].blocks[0].insts.iter().find(|i| i.id == s).unwrap();
    if let InstKind::ConstInt(0, _) = folded.kind {
        panic!("ashr with negative count folded to 0 — wrong on AArch64");
    }
}

#[test]
fn audit_const_fold_select_uses_declared_type() {
    let mut m = Module::new("t".into(), TargetLayout::LP64);
    let mut f = Function::new("f".into(), vec![], IrType::Int(IntWidth::I32));
    let a = push(&mut f, InstKind::ConstInt(1, IntWidth::I32), IrType::Int(IntWidth::I32));
    let b = push(&mut f, InstKind::ConstInt(99, IntWidth::I32), IrType::Int(IntWidth::I32));
    let cond = push(&mut f, InstKind::ConstBool(true), IrType::Bool);
    let sel = push(&mut f, InstKind::Select(cond, a, b), IrType::Int(IntWidth::I32));
    let entry = f.entry;
    f.block_mut(entry).terminator = Some(Terminator::Return(Some(sel)));
    m.add_function(f);

    ConstFold { floats: evaluate }.run(&mut m);
    let folded = m.functions[0].blocks[0].insts.iter().find(|i| i.id == sel).unwrap();
    match folded.kind {
        InstKind::ConstInt(1, IntWidth::I32) => { /* good */ }
        ref other => panic!("expected ConstInt(1, I32), got {:?}", other),
    }
    assert_eq!(folded.ty, IrType::Int(IntWidth::I32));
}

#[test]
fn audit_const_fold_select_width_drift_int() {
    let mut m = Module::new("t".into(), TargetLayout::LP64);
    let mut f = Function::new("f".into(), vec![], IrType::Int(IntWidth::I64));

    // Manually emit a ConstInt(255, I8). The stored value is 255.
    // At i8 precision the "true" value is -1 (sign bit set).
    let a = f.next_value_id();
    let entry = f.entry;
    f.block_mut(entry).insts.push(Inst {
        id: a,
        kind: InstKind::ConstInt(255, IntWidth::I8),
        ty: IrType::Int(IntWidth::I8),
        span: dummy_span(),
    });
    let b = push(&mut f, InstKind::ConstInt(99, IntWidth::I64), IrType::Int(IntWidth::I64));
    let cond = push(&mut f, InstKind::ConstBool(true), IrType::Bool);

    // Select declared as i64, chosen branch is i8 (255 → -1).
    let sel = f.next_value_id();
    f.block_mut(entry).insts.push(Inst {
        id: sel,
        kind: InstKind::Select(cond, a, b),
        ty: IrType::Int(IntWidth::I64),
        span: dummy_span(),
    });
    f.block_mut(entry).terminator = Some(Terminator::Return(Some(sel)));
    m.add_function(f);

    ConstFold { floats: evaluate }.run(&mut m);
    let folded = m.functions[0].blocks[0].insts.iter().find(|i| i.id == sel).unwrap();
    match folded.kind {
        InstKind::ConstInt(-1, IntWidth::I64) => { /* good — i8 -1 sign-extended to i64 */ }
        InstKind::ConstInt(v, w) => panic!(
            "expected ConstInt(-1, I64), got ConstInt({}, {:?}). \
             Source width was discarded — width drift slipped through.",
            v, w
        ),
        ref other => panic!("expected ConstInt fold, got {:?}", other),
    }
}

#[test]
fn audit_const_fold_icmp_uses_each_operand_width() {
    // We can't easily produce mismatched widths through normal
    // lowering because the verifier would catch operand types in
    // most cases. Construct directly: a is i32 holding 255, b is i8
    // holding 255 (which represents -1 at i8 precision). Eq should
    // be FALSE: 255 != -1.
    let mut m = Module::new("t".into(), TargetLayout::LP64);
    let mut f = Function::new("f".into(), vec![], IrType::Bool);
    let a = push(&mut f, InstKind::ConstInt(255, IntWidth::I32), IrType::Int(IntWidth::I32));
    let b = push(&mut f, InstKind::ConstInt(255, IntWidth::I8),  IrType::Int(IntWidth::I8));
    let eq = push(&mut f, InstKind::ICmp(CmpOp::Eq, a, b), IrType::Bool);
    let entry = f.entry;
    f.block_mut(entry).terminator = Some(Terminator::Return(Some(eq)));
    m.add_function(f);

    ConstFold { floats: evaluate }.run(&mut m);
    let folded = m.functions[0].blocks[0].insts.iter().find(|i| i.id == eq).unwrap();
    match folded.kind {
        // After the M-D fix: bv sign-extended at i8 → -1; av at i32 → 255.
        // 255 == -1 → false.
        InstKind::ConstBool(false) => { /* good */ }
        // Before the fix: both sign-extended at i32 → 255 == 255 → true.
        InstKind::ConstBool(true) => panic!(
            "ICmp folded as if both operands were i32-width \
             (lost b's i8 width). Expected ConstBool(false)."
        ),
        ref other => panic!("expected ConstBool, got {:?}", other),
    }
}

#[test]
fn audit_const_fold_fcmp_f32_after_m1_fix() {
    // IntToFloat(16777217:i32, F32) folds to ConstFloat
    // with the f32-rounded value (16777216.0). FCmp Eq against
    // ConstFloat(bits(16777216.0), F32) should now return true.
    let mut m = Module::new("t".into(), TargetLayout::LP64);
    let mut f = Function::new("f".into(), vec![], IrType::Bool);
    let i = push(&mut f, InstKind::ConstInt(16_777_217, IntWidth::I32), IrType::Int(IntWidth::I32));
    let fv_a = push(&mut f, InstKind::IntToFloat(i, FloatWidth::F32), IrType::Float(FloatWidth::F32));
    let fv_b = push(&mut f, InstKind::ConstFloat(bits(16_777_216.0), FloatWidth::F32), IrType::Float(FloatWidth::F32));
    let eq = push(&mut f, InstKind::FCmp(CmpOp::Eq, fv_a, fv_b), IrType::Bool);
    let entry = f.entry;
    f.block_mut(entry).terminator = Some(Terminator::Return(Some(eq)));
    m.add_function(f);

    ConstFold { floats: evaluate }.run(&mut m);
    let folded = m.functions[0].blocks[0].insts.iter().find(|i| i.id == eq).unwrap();
    assert!(matches!(folded.kind, InstKind::ConstBool(true)),
        "FCmp on f32-rounded values should return true, got {:?}", folded.kind);
}

#[test]
fn audit_const_fold_floattoint_from_f32_after_m1_fix() {
    // IntToFloat(16777217, F32) → ConstFloat(bits(16777216.0), F32).
    // FloatToInt(_, I32) should produce 16777216, not 16777217.
    let mut m = Module::new("t".into(), TargetLayout::LP64);
    let mut f = Function::new("f".into(), vec![], IrType::Int(IntWidth::I32));
    let i = push(&mut f, InstKind::ConstInt(16_777_217, IntWidth::I32), IrType::Int(IntWidth::I32));
    let fv = push(&mut f, InstKind::IntToFloat(i, FloatWidth::F32), IrType::Float(FloatWidth::F32));
    let back = push(&mut f, InstKind::FloatToInt(fv, IntWidth::I32), IrType::Int(IntWidth::I32));
    let entry = f.entry;
    f.block_mut(entry).terminator = Some(Terminator::Return(Some(back)));
    m.add_function(f);

    ConstFold { floats: evaluate }.run(&mut m);
    let folded = m.functions[0].blocks[0].insts.iter().find(|i| i.id == back).unwrap();
    match folded.kind {
        InstKind::ConstInt(16_777_216, IntWidth::I32) => { /* good */ }
        ref other => panic!("expected ConstInt(16777216, I32), got {:?}", other),
    }
}

#[test]
fn audit_const_fold_popcount_uses_inst_ty() {
    // Build PopCount whose source is i32 but whose declared result
    // type is also i32 (the common case). After the fix, the fold
    // result must be tagged with inst.ty (i32), even if a future
    // change makes the source carry a different width.
    let mut m = Module::new("t".into(), TargetLayout::LP64);
    let mut f = Function::new("f".into(), vec![], IrType::Int(IntWidth::I32));
    let v = push(&mut f, InstKind::ConstInt(0xFF, IntWidth::I32), IrType::Int(IntWidth::I32));
    let pc = push(&mut f, InstKind::PopCount(v), IrType::Int(IntWidth::I32));
    let entry = f.entry;
    f.block_mut(entry).terminator = Some(Terminator::Return(Some(pc)));
    m.add_function(f);

    ConstFold { floats: evaluate }.run(&mut m);
    let folded = m.functions[0].blocks[0].insts.iter().find(|i| i.id == pc).unwrap();
    match folded.kind {
        InstKind::ConstInt(8, IntWidth::I32) => { /* good */ }
        ref other => panic!("expected ConstInt(8, I32), got {:?}", other),
    }
    assert_eq!(folded.ty, IrType::Int(IntWidth::I32));
}

#[test]
fn audit_int_to_f32_then_fsub_wrong_answer_today() {
    let mut m = Module::new("t".into(), TargetLayout::LP64);
    let mut f = Function::new("f".into(), vec![], IrType::Float(FloatWidth::F32));
    let i_a = push(&mut f, InstKind::ConstInt(16_777_217, IntWidth::I32), IrType::Int(IntWidth::I32));
    let i_b = push(&mut f, InstKind::ConstInt(16_777_216, IntWidth::I32), IrType::Int(IntWidth::I32));
    let f_a = push(&mut f, InstKind::IntToFloat(i_a, FloatWidth::F32), IrType::Float(FloatWidth::F32));
    let f_b = push(&mut f, InstKind::IntToFloat(i_b, FloatWidth::F32), IrType::Float(FloatWidth::F32));
    let diff = push(&mut f, InstKind::FSub(f_a, f_b), IrType::Float(FloatWidth::F32));
    let entry = f.entry;
    f.block_mut(entry).terminator = Some(Terminator::Return(Some(diff)));
    m.add_function(f);

    ConstFold { floats: evaluate }.run(&mut m);

    let folded = m.functions[0].blocks[0].insts.iter().find(|i| i.id == diff).unwrap();
    match folded.kind {
        // Expected: 0.0 (after correct f32 rounding both inputs are 16777216).
        // Bug:      1.0 (without rounding 16777217.0 - 16777216.0 = 1.0).
        InstKind::ConstFloat(v, FloatWidth::F32) => assert_eq!(f64::from_bits(v), 0.0,
            "expected 0.0 (both inputs round to 16777216 in f32), got {}", v),
        ref other => panic!("expected ConstFloat, got {:?}", other),
    }
}

#[test]
fn audit_const_fold_imul_i8_overflow_wraps() {
    let mut m = Module::new("t".into(), TargetLayout::LP64);
    let mut f = Function::new("f".into(), vec![], IrType::Int(IntWidth::I8));
    let a = push(&mut f, InstKind::ConstInt(100, IntWidth::I8), IrType::Int(IntWidth::I8));
    let b = push(&mut f, InstKind::ConstInt(100, IntWidth::I8), IrType::Int(IntWidth::I8));
    let p = push(&mut f, InstKind::IMul(a, b), IrType::Int(IntWidth::I8));
    let entry = f.entry;
    f.block_mut(entry).terminator = Some(Terminator::Return(Some(p)));
    m.add_function(f);

    ConstFold { floats: evaluate }.run(&mut m);
    let folded = m.functions[0].blocks[0].insts.iter().find(|i| i.id == p).unwrap();
    match folded.kind {
        // 100 * 100 = 10000; low byte = 0x10 = 16; sext = 16
        InstKind::ConstInt(v, IntWidth::I8) => assert_eq!(v, 16, "expected i8 wrap, got {}", v),
        _ => panic!(),
    }
}

#[test]
fn audit_const_fold_non_rpo_block_order() {

    let mut m = Module::new("t".into(), TargetLayout::LP64);
    let mut f = Function::new("f".into(), vec![], IrType::Int(IntWidth::I32));

    let a_block = f.create_block("a");
    let b_block = f.create_block("b");
    let one = push(&mut f, InstKind::ConstInt(1, IntWidth::I32), IrType::Int(IntWidth::I32));
    let entry = f.entry;
    f.block_mut(entry).terminator = Some(Terminator::Branch(a_block, vec![]));

    let two_id = f.next_value_id();
    f.block_mut(a_block).insts.push(Inst {
        id: two_id,
        kind: InstKind::ConstInt(2, IntWidth::I32),
        ty: IrType::Int(IntWidth::I32),
        span: dummy_span(),
    });
    f.block_mut(a_block).terminator = Some(Terminator::Branch(b_block, vec![]));

    let sum_id = f.next_value_id();
    f.block_mut(b_block).insts.push(Inst {
        id: sum_id,
        kind: InstKind::IAdd(one, two_id),
        ty: IrType::Int(IntWidth::I32),
        span: dummy_span(),
    });
    f.block_mut(b_block).terminator = Some(Terminator::Return(Some(sum_id)));

    // Swap A and B in the vec order (positions 1 and 2; entry is 0).
    f.blocks.swap(1, 2);
    m.add_function(f);

    let pre = verify_module(&m);
    assert!(pre.is_empty(), "test setup invalid: {:?}", pre);

    run_passes(&mut m);

    let post = verify_module(&m);
    assert!(post.is_empty(), "non-RPO block order broke optimization: {:?}", post);

    // The fold MUST have converged: the IAdd's defining instruction
    // (still carrying `sum_id`) should now be the constant `3`, or
    // the entire dead chain should have been DCE'd and the terminator
    // should reference a const(3) directly.
    let f = &m.functions[0];
    let terminator_val = f.blocks.iter()
        .find_map(|b| match &b.terminator {
            Some(Terminator::Return(Some(v))) => Some(*v),
            _ => None,
        })
        .expect("no Return terminator");
    let term_kind = f.blocks.iter()
        .flat_map(|b| b.insts.iter())
        .find(|i| i.id == terminator_val)
        .map(|i| i.kind.clone())
        .expect("terminator value has no defining inst");
    match term_kind {
        InstKind::ConstInt(3, IntWidth::I32) => { /* good — fold converged */ }
        ref other => panic!(
            "the non-RPO block order broke const_fold convergence. \
             Expected the return value to be ConstInt(3, I32), got {:?}",
            other
        ),
    }
}

#[test]
fn audit_const_fold_shl_full_width_wrap() {
    let mut m = Module::new("t".into(), TargetLayout::LP64);
    let mut f = Function::new("f".into(), vec![], IrType::Int(IntWidth::I32));
    let v = push(&mut f, InstKind::ConstInt(1, IntWidth::I32), IrType::Int(IntWidth::I32));
    let cnt = push(&mut f, InstKind::ConstInt(31, IntWidth::I32), IrType::Int(IntWidth::I32));
    let s = push(&mut f, InstKind::Shl(v, cnt), IrType::Int(IntWidth::I32));
    let entry = f.entry;
    f.block_mut(entry).terminator = Some(Terminator::Return(Some(s)));
    m.add_function(f);

    ConstFold { floats: evaluate }.run(&mut m);
    let folded = m.functions[0].blocks[0].insts.iter().find(|i| i.id == s).unwrap();
    match folded.kind {
        InstKind::ConstInt(v, IntWidth::I32) => {
            // 1 << 31 in i32 is INT_MIN = -2147483648.
            assert_eq!(v, -2147483648, "expected i32 sign bit set, got {}", v);
        }
        _ => panic!(),
    }
}

#[test]
fn audit_const_fold_iadd_i16_overflow() {
    let mut m = Module::new("t".into(), TargetLayout::LP64);
    let mut f = Function::new("f".into(), vec![], IrType::Int(IntWidth::I16));
    let a = push(&mut f, InstKind::ConstInt(32000, IntWidth::I16), IrType::Int(IntWidth::I16));
    let b = push(&mut f, InstKind::ConstInt(1000,  IntWidth::I16), IrType::Int(IntWidth::I16));
    let s = push(&mut f, InstKind::IAdd(a, b), IrType::Int(IntWidth::I16));
    let entry = f.entry;
    f.block_mut(entry).terminator = Some(Terminator::Return(Some(s)));
    m.add_function(f);

    ConstFold { floats: evaluate }.run(&mut m);
    let folded = m.functions[0].blocks[0].insts.iter().find(|i| i.id == s).unwrap();
    match folded.kind {
        InstKind::ConstInt(v, IntWidth::I16) => {
            // 32000 + 1000 = 33000, wraps in i16 to -32536
            assert_eq!(v, -32536, "expected i16 wrap, got {}", v);
        }
        _ => panic!(),
    }
}

#[test]
fn audit_const_prop_merge_after_drop() {
    let mut m = Module::new("t".into(), TargetLayout::LP64);
    let mut f = Function::new("f".into(), vec![], IrType::Int(IntWidth::I32));

    let cond = push(&mut f, InstKind::ConstBool(true), IrType::Bool);
    let v_a = push(&mut f, InstKind::ConstInt(10, IntWidth::I32), IrType::Int(IntWidth::I32));
    let v_b = push(&mut f, InstKind::ConstInt(20, IntWidth::I32), IrType::Int(IntWidth::I32));

    let a = f.create_block("a");
    let b = f.create_block("b");
    let merge = f.create_block("merge");
    let m_param = f.next_value_id();
    f.block_mut(merge).params.push(BlockParam { id: m_param, ty: IrType::Int(IntWidth::I32) });

    f.block_mut(a).terminator = Some(Terminator::Branch(merge, vec![v_a]));
    f.block_mut(b).terminator = Some(Terminator::Branch(merge, vec![v_b]));
    f.block_mut(merge).terminator = Some(Terminator::Return(Some(m_param)));

    let entry = f.entry;
    f.block_mut(entry).terminator = Some(Terminator::CondBranch {
        cond,
        true_dest: a,
        true_args: vec![],
        false_dest: b,
        false_args: vec![],
    });
    m.add_function(f);

    let pre = verify_module(&m);
    assert!(pre.is_empty(), "test setup not valid: {:?}", pre);

    ConstProp.run(&mut m);

    let post = verify_module(&m);
    assert!(post.is_empty(),
        "const_prop produced an invalid module after dropping the false arm: {:?}", post);

    // After folding, B should be gone but merge should still exist.
    let f = &m.functions[0];
    assert!(!f.blocks.iter().any(|bk| bk.id == b), "block B should be pruned");
    assert!(f.blocks.iter().any(|bk| bk.id == merge), "merge should remain");
}
