use armfortas::ir::inst::{CmpOp, FuncRef, Function, Inst, InstKind, Module, Terminator, ValueId};
use armfortas::ir::types::{FloatWidth, FuncSig, IntWidth, IrType, TypeList};
use armfortas::lexer::{Position, Span};
use armfortas::opt::cse::LocalCse;
use armfortas::opt::pass::Pass;
use armfortas::target::TargetLayout;

fn bits(v: f64) -> u64 {
    v.to_bits()
}

fn dummy_span() -> Span {
    let p = Position { line: 1, col: 1 };
    Span {
        start: p,
        end: p,
        file_id: 0,
    }
}

fn push(f: &mut Function, kind: InstKind, ty: IrType) -> ValueId {
    let id = f.next_value_id();
    let entry = f.entry;
    f.block_mut(entry).insts.push(Inst {
        id,
        kind,
        ty,
        span: dummy_span(),
    });
    id
}

#[test]
fn dedupes_iadd_pair() {
    // %0 = const 1
    // %1 = const 2
    // %2 = iadd %0, %1
    // %3 = iadd %0, %1   ; same as %2
    // ret %3 → after CSE → ret %2 (and %3 is dead)
    let mut m = Module::new("t".into(), TargetLayout::LP64);
    let mut f = Function::new("f".into(), vec![], IrType::Int(IntWidth::I32));
    let a = push(
        &mut f,
        InstKind::ConstInt(1, IntWidth::I32),
        IrType::Int(IntWidth::I32),
    );
    let b = push(
        &mut f,
        InstKind::ConstInt(2, IntWidth::I32),
        IrType::Int(IntWidth::I32),
    );
    let c1 = push(&mut f, InstKind::IAdd(a, b), IrType::Int(IntWidth::I32));
    let c2 = push(&mut f, InstKind::IAdd(a, b), IrType::Int(IntWidth::I32));
    let entry = f.entry;
    f.block_mut(entry).terminator = Some(Terminator::Return(Some(c2)));
    m.add_function(f);

    assert!(LocalCse.run(&mut m));
    // Terminator now references c1 instead of c2.
    match &m.functions[0].blocks[0].terminator {
        Some(Terminator::Return(Some(v))) => assert_eq!(*v, c1),
        _ => panic!(),
    }
    assert!(
        m.functions[0].blocks[0]
            .insts
            .iter()
            .all(|inst| inst.id != c2),
        "the rewritten duplicate must be removed"
    );
    assert!(!LocalCse.run(&mut m), "a second run must be a no-op");
}

#[test]
fn commutative_iadd_dedupes_swapped_operands() {
    // %2 = iadd %0, %1
    // %3 = iadd %1, %0
    // Should canonicalize to the same key.
    let mut m = Module::new("t".into(), TargetLayout::LP64);
    let mut f = Function::new("f".into(), vec![], IrType::Int(IntWidth::I32));
    let a = push(
        &mut f,
        InstKind::ConstInt(1, IntWidth::I32),
        IrType::Int(IntWidth::I32),
    );
    let b = push(
        &mut f,
        InstKind::ConstInt(2, IntWidth::I32),
        IrType::Int(IntWidth::I32),
    );
    let c1 = push(&mut f, InstKind::IAdd(a, b), IrType::Int(IntWidth::I32));
    let c2 = push(&mut f, InstKind::IAdd(b, a), IrType::Int(IntWidth::I32));
    let _ = c2;
    let entry = f.entry;
    f.block_mut(entry).terminator = Some(Terminator::Return(Some(c2)));
    m.add_function(f);

    assert!(LocalCse.run(&mut m));
    match &m.functions[0].blocks[0].terminator {
        Some(Terminator::Return(Some(v))) => assert_eq!(*v, c1),
        _ => panic!(),
    }
}

#[test]
fn non_commutative_isub_does_not_dedupe_swapped() {
    let mut m = Module::new("t".into(), TargetLayout::LP64);
    let mut f = Function::new("f".into(), vec![], IrType::Int(IntWidth::I32));
    let a = push(
        &mut f,
        InstKind::ConstInt(5, IntWidth::I32),
        IrType::Int(IntWidth::I32),
    );
    let b = push(
        &mut f,
        InstKind::ConstInt(3, IntWidth::I32),
        IrType::Int(IntWidth::I32),
    );
    let _c1 = push(&mut f, InstKind::ISub(a, b), IrType::Int(IntWidth::I32));
    let c2 = push(&mut f, InstKind::ISub(b, a), IrType::Int(IntWidth::I32));
    let entry = f.entry;
    f.block_mut(entry).terminator = Some(Terminator::Return(Some(c2)));
    m.add_function(f);

    // Returns c2 unchanged — no rewrite was possible.
    assert!(!LocalCse.run(&mut m));
}

#[test]
fn keeps_load_pair_intact() {
    // Loads must NOT be deduplicated by local CSE.
    let mut m = Module::new("t".into(), TargetLayout::LP64);
    let mut f = Function::new("f".into(), vec![], IrType::Void);
    let addr = push(
        &mut f,
        InstKind::Alloca(IrType::Int(IntWidth::I32)),
        IrType::Ptr(Box::new(IrType::Int(IntWidth::I32))),
    );
    let _l1 = push(&mut f, InstKind::Load(addr), IrType::Int(IntWidth::I32));
    let _l2 = push(&mut f, InstKind::Load(addr), IrType::Int(IntWidth::I32));
    let entry = f.entry;
    f.block_mut(entry).terminator = Some(Terminator::Return(None));
    m.add_function(f);

    assert!(!LocalCse.run(&mut m));
}

#[test]
fn fmul_dedupes() {
    let mut m = Module::new("t".into(), TargetLayout::LP64);
    let mut f = Function::new("f".into(), vec![], IrType::Float(FloatWidth::F64));
    let a = push(
        &mut f,
        InstKind::ConstFloat(bits(1.5), FloatWidth::F64),
        IrType::Float(FloatWidth::F64),
    );
    let b = push(
        &mut f,
        InstKind::ConstFloat(bits(2.5), FloatWidth::F64),
        IrType::Float(FloatWidth::F64),
    );
    let m1 = push(&mut f, InstKind::FMul(a, b), IrType::Float(FloatWidth::F64));
    let m2 = push(&mut f, InstKind::FMul(b, a), IrType::Float(FloatWidth::F64));
    let entry = f.entry;
    f.block_mut(entry).terminator = Some(Terminator::Return(Some(m2)));
    m.add_function(f);

    assert!(LocalCse.run(&mut m));
    match &m.functions[0].blocks[0].terminator {
        Some(Terminator::Return(Some(v))) => assert_eq!(*v, m1),
        _ => panic!(),
    }
}

#[test]
fn keeps_fp_expressions_distinct_across_indirect_call() {
    let mut m = Module::new("t".into(), TargetLayout::LP64);
    let mut f = Function::new("f".into(), vec![], IrType::Float(FloatWidth::F64));
    let a = push(
        &mut f,
        InstKind::ConstFloat(bits(1.0), FloatWidth::F64),
        IrType::Float(FloatWidth::F64),
    );
    let b = push(
        &mut f,
        InstKind::ConstFloat(bits(5.551_115_123_125_783e-17), FloatWidth::F64),
        IrType::Float(FloatWidth::F64),
    );
    let target_ty = IrType::FuncPtr(Box::new(FuncSig {
        params: TypeList::Nil,
        ret: IrType::Void,
    }));
    let target = push(&mut f, InstKind::Undef(target_ty.clone()), target_ty);
    let _down = push(&mut f, InstKind::FAdd(a, b), IrType::Float(FloatWidth::F64));
    push(
        &mut f,
        InstKind::Call(FuncRef::Indirect(target), vec![]),
        IrType::Void,
    );
    let up = push(&mut f, InstKind::FAdd(a, b), IrType::Float(FloatWidth::F64));
    let entry = f.entry;
    f.block_mut(entry).terminator = Some(Terminator::Return(Some(up)));
    m.add_function(f);

    assert!(
        !LocalCse.run(&mut m),
        "an indirect call may change the rounding mode between FP expressions"
    );
}

#[test]
fn keeps_fcmp_distinct_when_function_accesses_fp_environment() {
    let mut m = Module::new("t".into(), TargetLayout::LP64);
    let mut f = Function::new("f".into(), vec![], IrType::Bool);
    let snan = push(
        &mut f,
        InstKind::ConstFloat(0x7ff0_0000_0000_0001, FloatWidth::F64),
        IrType::Float(FloatWidth::F64),
    );
    let zero = push(
        &mut f,
        InstKind::ConstFloat(bits(0.0), FloatWidth::F64),
        IrType::Float(FloatWidth::F64),
    );
    let first = push(&mut f, InstKind::FCmp(CmpOp::Eq, snan, zero), IrType::Bool);
    let invalid = push(
        &mut f,
        InstKind::ConstInt(1, IntWidth::I32),
        IrType::Int(IntWidth::I32),
    );
    let clear = push(
        &mut f,
        InstKind::ConstInt(0, IntWidth::I32),
        IrType::Int(IntWidth::I32),
    );
    push(
        &mut f,
        InstKind::Call(
            FuncRef::External("afs_ieee_set_flag".into()),
            vec![invalid, clear],
        ),
        IrType::Void,
    );
    let second = push(&mut f, InstKind::FCmp(CmpOp::Eq, snan, zero), IrType::Bool);
    let entry = f.entry;
    f.block_mut(entry).terminator = Some(Terminator::Return(Some(second)));
    m.add_function(f);

    assert!(
        !LocalCse.run(&mut m),
        "the second signaling comparison must execute after IEEE_INVALID is cleared"
    );
    let comparisons = m.functions[0].blocks[0]
        .insts
        .iter()
        .filter(|inst| matches!(inst.kind, InstKind::FCmp(..)))
        .map(|inst| inst.id)
        .collect::<Vec<_>>();
    assert_eq!(comparisons, vec![first, second]);
    assert!(matches!(
        m.functions[0].blocks[0].terminator,
        Some(Terminator::Return(Some(value))) if value == second
    ));
}

#[test]
fn fcmp_still_dedupes_without_fp_environment_access() {
    let mut m = Module::new("t".into(), TargetLayout::LP64);
    let mut f = Function::new("f".into(), vec![], IrType::Bool);
    let value = push(
        &mut f,
        InstKind::ConstFloat(bits(1.0), FloatWidth::F64),
        IrType::Float(FloatWidth::F64),
    );
    let zero = push(
        &mut f,
        InstKind::ConstFloat(bits(0.0), FloatWidth::F64),
        IrType::Float(FloatWidth::F64),
    );
    let first = push(&mut f, InstKind::FCmp(CmpOp::Gt, value, zero), IrType::Bool);
    let second = push(&mut f, InstKind::FCmp(CmpOp::Gt, value, zero), IrType::Bool);
    let entry = f.entry;
    f.block_mut(entry).terminator = Some(Terminator::Return(Some(second)));
    m.add_function(f);

    assert!(LocalCse.run(&mut m));
    assert!(matches!(
        m.functions[0].blocks[0].terminator,
        Some(Terminator::Return(Some(value))) if value == first
    ));
    assert!(
        m.functions[0].blocks[0]
            .insts
            .iter()
            .all(|inst| inst.id != second),
        "ordinary comparison CSE must remain enabled without an FP-environment barrier"
    );
}

#[test]
fn icmp_lt_not_canonicalized() {
    // Lt is not commutative — must not collapse.
    let mut m = Module::new("t".into(), TargetLayout::LP64);
    let mut f = Function::new("f".into(), vec![], IrType::Bool);
    let a = push(
        &mut f,
        InstKind::ConstInt(1, IntWidth::I32),
        IrType::Int(IntWidth::I32),
    );
    let b = push(
        &mut f,
        InstKind::ConstInt(2, IntWidth::I32),
        IrType::Int(IntWidth::I32),
    );
    let _c1 = push(&mut f, InstKind::ICmp(CmpOp::Lt, a, b), IrType::Bool);
    let c2 = push(&mut f, InstKind::ICmp(CmpOp::Lt, b, a), IrType::Bool);
    let entry = f.entry;
    f.block_mut(entry).terminator = Some(Terminator::Return(Some(c2)));
    m.add_function(f);

    assert!(!LocalCse.run(&mut m));
}
