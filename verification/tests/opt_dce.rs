use armfortas::ir::inst::{FuncRef, Function, Inst, InstKind, Module, Param, RuntimeFunc, Terminator, ValueId};
use armfortas::ir::types::{FloatWidth, IntWidth, IrType};
use armfortas::lexer::{Position, Span};
use armfortas::opt::dce::Dce;
use armfortas::opt::pass::Pass;
use armfortas::opt::purity::derive_internal_call_dce_info;
use armfortas::target::TargetLayout;

fn bits(v: f64) -> u64 {
    v.to_bits()
}

fn dummy_span() -> Span {
    let p = Position { line: 1, col: 1 };
    Span {
        start: p,
        end: p,
        file_id: 0,
    }
}

fn push(f: &mut Function, kind: InstKind, ty: IrType) -> ValueId {
    let id = f.next_value_id();
    let entry = f.entry;
    f.block_mut(entry).insts.push(Inst {
        id,
        kind,
        ty,
        span: dummy_span(),
    });
    id
}

fn internal_call_count(func: &Function, target: u32) -> usize {
    func.blocks
        .iter()
        .flat_map(|block| block.insts.iter())
        .filter(|inst| {
            matches!(
                &inst.kind,
                InstKind::Call(FuncRef::Internal(idx), _) if *idx == target
            )
        })
        .count()
}

#[test]
fn removes_unused_const() {
    let mut m = Module::new("t".into(), TargetLayout::LP64);
    let mut f = Function::new("f".into(), vec![], IrType::Void);
    push(
        &mut f,
        InstKind::ConstInt(7, IntWidth::I32),
        IrType::Int(IntWidth::I32),
    );
    let entry = f.entry;
    f.block_mut(entry).terminator = Some(Terminator::Return(None));
    m.add_function(f);

    assert!(Dce.run(&mut m));
    assert!(m.functions[0].blocks[0].insts.is_empty());
}

#[test]
fn keeps_const_used_by_return() {
    let mut m = Module::new("t".into(), TargetLayout::LP64);
    let mut f = Function::new("f".into(), vec![], IrType::Int(IntWidth::I32));
    let v = push(
        &mut f,
        InstKind::ConstInt(7, IntWidth::I32),
        IrType::Int(IntWidth::I32),
    );
    let entry = f.entry;
    f.block_mut(entry).terminator = Some(Terminator::Return(Some(v)));
    m.add_function(f);

    assert!(!Dce.run(&mut m));
    assert_eq!(m.functions[0].blocks[0].insts.len(), 1);
}

#[test]
fn keeps_store_even_if_address_unused() {
    // Alloca + Store should both stay even though no one loads.
    let mut m = Module::new("t".into(), TargetLayout::LP64);
    let mut f = Function::new("f".into(), vec![], IrType::Void);
    let addr = push(
        &mut f,
        InstKind::Alloca(IrType::Int(IntWidth::I32)),
        IrType::Ptr(Box::new(IrType::Int(IntWidth::I32))),
    );
    let v = push(
        &mut f,
        InstKind::ConstInt(1, IntWidth::I32),
        IrType::Int(IntWidth::I32),
    );
    push(&mut f, InstKind::Store(v, addr), IrType::Void);
    let entry = f.entry;
    f.block_mut(entry).terminator = Some(Terminator::Return(None));
    m.add_function(f);

    assert!(!Dce.run(&mut m));
    assert_eq!(m.functions[0].blocks[0].insts.len(), 3);
}

#[test]
fn cascades_through_chain() {
    // %1 = const 3
    // %2 = const 4
    // %3 = iadd %1, %2     ; unused
    // %4 = fmul ...        ; uses %3 transitively?  No — distinct chain
    // After DCE: only the terminator remains.
    let mut m = Module::new("t".into(), TargetLayout::LP64);
    let mut f = Function::new("f".into(), vec![], IrType::Void);
    let a = push(
        &mut f,
        InstKind::ConstInt(3, IntWidth::I32),
        IrType::Int(IntWidth::I32),
    );
    let b = push(
        &mut f,
        InstKind::ConstInt(4, IntWidth::I32),
        IrType::Int(IntWidth::I32),
    );
    let c = push(&mut f, InstKind::IAdd(a, b), IrType::Int(IntWidth::I32));
    let _d = push(&mut f, InstKind::INeg(c), IrType::Int(IntWidth::I32));
    let entry = f.entry;
    f.block_mut(entry).terminator = Some(Terminator::Return(None));
    m.add_function(f);

    assert!(Dce.run(&mut m));
    assert!(m.functions[0].blocks[0].insts.is_empty());
}

#[test]
fn keeps_call_even_if_result_unused() {
    let mut m = Module::new("t".into(), TargetLayout::LP64);
    let mut f = Function::new("f".into(), vec![], IrType::Void);
    push(
        &mut f,
        InstKind::RuntimeCall(RuntimeFunc::PrintNewline, vec![]),
        IrType::Void,
    );
    let entry = f.entry;
    f.block_mut(entry).terminator = Some(Terminator::Return(None));
    m.add_function(f);

    assert!(!Dce.run(&mut m));
    assert_eq!(m.functions[0].blocks[0].insts.len(), 1);
}

#[test]
fn removes_unused_internal_pure_call() {
    let mut m = Module::new("t".into(), TargetLayout::LP64);

    let mut callee = Function::new("pure_fn".into(), vec![], IrType::Int(IntWidth::I32));
    callee.is_pure = true;
    let c = push(
        &mut callee,
        InstKind::ConstInt(7, IntWidth::I32),
        IrType::Int(IntWidth::I32),
    );
    let callee_entry = callee.entry;
    callee.block_mut(callee_entry).terminator = Some(Terminator::Return(Some(c)));
    m.add_function(callee);

    let mut caller = Function::new("caller".into(), vec![], IrType::Void);
    push(
        &mut caller,
        InstKind::Call(FuncRef::Internal(0), vec![]),
        IrType::Int(IntWidth::I32),
    );
    let caller_entry = caller.entry;
    caller.block_mut(caller_entry).terminator = Some(Terminator::Return(None));
    m.add_function(caller);

    assert!(Dce.run(&mut m));
    assert!(
        m.functions[1].blocks[0].insts.is_empty(),
        "unused PURE call should be removed"
    );
}

#[test]
fn keeps_unused_internal_call_when_pure_flag_hides_runtime_effect() {
    let mut m = Module::new("t".into(), TargetLayout::LP64);

    let mut callee = Function::new("mislabelled_fn".into(), vec![], IrType::Int(IntWidth::I32));
    callee.is_pure = true;
    let seven = push(
        &mut callee,
        InstKind::ConstInt(7, IntWidth::I32),
        IrType::Int(IntWidth::I32),
    );
    push(
        &mut callee,
        InstKind::RuntimeCall(RuntimeFunc::PrintInt, vec![seven]),
        IrType::Void,
    );
    let callee_entry = callee.entry;
    callee.block_mut(callee_entry).terminator = Some(Terminator::Return(Some(seven)));
    m.add_function(callee);

    let mut caller = Function::new("caller".into(), vec![], IrType::Void);
    push(
        &mut caller,
        InstKind::Call(FuncRef::Internal(0), vec![]),
        IrType::Int(IntWidth::I32),
    );
    let caller_entry = caller.entry;
    caller.block_mut(caller_entry).terminator = Some(Terminator::Return(None));
    m.add_function(caller);

    Dce.run(&mut m);
    assert_eq!(
        m.functions[1].blocks[0].insts.len(),
        1,
        "DCE must inspect the callee body instead of trusting is_pure"
    );
}

#[test]
fn keeps_unused_internal_call_when_pure_flag_hides_external_call() {
    let mut m = Module::new("t".into(), TargetLayout::LP64);

    let mut callee = Function::new("mislabelled_fn".into(), vec![], IrType::Int(IntWidth::I32));
    callee.is_pure = true;
    let result = push(
        &mut callee,
        InstKind::Call(FuncRef::External("unknown_effect".into()), vec![]),
        IrType::Int(IntWidth::I32),
    );
    let callee_entry = callee.entry;
    callee.block_mut(callee_entry).terminator = Some(Terminator::Return(Some(result)));
    m.add_function(callee);

    assert!(
        !derive_internal_call_dce_info(&m)[0].discardable_when_unused,
        "an unknown external call must make the function observable"
    );
}

#[test]
fn keeps_unused_internal_call_when_pure_flag_hides_nonlocal_store() {
    let mut m = Module::new("t".into(), TargetLayout::LP64);
    let param = Param {
        name: "out".into(),
        ty: IrType::Ptr(Box::new(IrType::Int(IntWidth::I32))),
        id: ValueId(0),
        fortran_noalias: false,
    };

    let mut callee = Function::new(
        "mislabelled_fn".into(),
        vec![param],
        IrType::Int(IntWidth::I32),
    );
    callee.is_pure = true;
    let one = push(
        &mut callee,
        InstKind::ConstInt(1, IntWidth::I32),
        IrType::Int(IntWidth::I32),
    );
    push(&mut callee, InstKind::Store(one, ValueId(0)), IrType::Void);
    let callee_entry = callee.entry;
    callee.block_mut(callee_entry).terminator = Some(Terminator::Return(Some(one)));
    m.add_function(callee);

    assert!(
        !derive_internal_call_dce_info(&m)[0].discardable_when_unused,
        "a store through a parameter must make the function observable"
    );
}

#[test]
fn keeps_unused_internal_call_when_transitive_callee_has_effects() {
    let mut m = Module::new("t".into(), TargetLayout::LP64);

    let mut leaf = Function::new("leaf".into(), vec![], IrType::Int(IntWidth::I32));
    leaf.is_pure = true;
    let seven = push(
        &mut leaf,
        InstKind::ConstInt(7, IntWidth::I32),
        IrType::Int(IntWidth::I32),
    );
    push(
        &mut leaf,
        InstKind::RuntimeCall(RuntimeFunc::PrintInt, vec![seven]),
        IrType::Void,
    );
    let leaf_entry = leaf.entry;
    leaf.block_mut(leaf_entry).terminator = Some(Terminator::Return(Some(seven)));
    m.add_function(leaf);

    let mut wrapper = Function::new("wrapper".into(), vec![], IrType::Int(IntWidth::I32));
    wrapper.is_pure = true;
    let result = push(
        &mut wrapper,
        InstKind::Call(FuncRef::Internal(0), vec![]),
        IrType::Int(IntWidth::I32),
    );
    let wrapper_entry = wrapper.entry;
    wrapper.block_mut(wrapper_entry).terminator = Some(Terminator::Return(Some(result)));
    m.add_function(wrapper);

    assert!(
        !derive_internal_call_dce_info(&m)[1].discardable_when_unused,
        "effects must propagate through internal PURE call chains"
    );
}

#[test]
fn removes_unused_internal_pure_call_with_local_store() {
    let mut m = Module::new("t".into(), TargetLayout::LP64);

    let mut callee = Function::new(
        "pure_local_store".into(),
        vec![],
        IrType::Int(IntWidth::I32),
    );
    callee.is_pure = true;
    let slot = push(
        &mut callee,
        InstKind::Alloca(IrType::Int(IntWidth::I32)),
        IrType::Ptr(Box::new(IrType::Int(IntWidth::I32))),
    );
    let zero = push(
        &mut callee,
        InstKind::ConstInt(0, IntWidth::I64),
        IrType::Int(IntWidth::I64),
    );
    let element = push(
        &mut callee,
        InstKind::GetElementPtr(slot, vec![zero]),
        IrType::Ptr(Box::new(IrType::Int(IntWidth::I32))),
    );
    let seven = push(
        &mut callee,
        InstKind::ConstInt(7, IntWidth::I32),
        IrType::Int(IntWidth::I32),
    );
    push(&mut callee, InstKind::Store(seven, element), IrType::Void);
    let callee_entry = callee.entry;
    callee.block_mut(callee_entry).terminator = Some(Terminator::Return(Some(seven)));
    m.add_function(callee);

    assert!(
        derive_internal_call_dce_info(&m)[0].discardable_when_unused,
        "stores proven local to the callee must not disable PURE call removal"
    );
}

#[test]
fn removes_unused_internal_pure_call_that_only_reads_global_state() {
    let mut m = Module::new("t".into(), TargetLayout::LP64);

    let mut callee = Function::new(
        "pure_global_read".into(),
        vec![],
        IrType::Int(IntWidth::I32),
    );
    callee.is_pure = true;
    let addr = push(
        &mut callee,
        InstKind::GlobalAddr("module_state".into()),
        IrType::Ptr(Box::new(IrType::Int(IntWidth::I32))),
    );
    let value = push(
        &mut callee,
        InstKind::Load(addr),
        IrType::Int(IntWidth::I32),
    );
    let callee_entry = callee.entry;
    callee.block_mut(callee_entry).terminator = Some(Terminator::Return(Some(value)));
    m.add_function(callee);

    assert!(
        derive_internal_call_dce_info(&m)[0].discardable_when_unused,
        "Fortran PURE functions may read module state without making a dead call observable"
    );
}

#[test]
fn keeps_unused_internal_pure_void_call() {
    let mut m = Module::new("t".into(), TargetLayout::LP64);

    let mut callee = Function::new("pure_hidden_result_fn".into(), vec![], IrType::Void);
    callee.is_pure = true;
    let callee_entry = callee.entry;
    callee.block_mut(callee_entry).terminator = Some(Terminator::Return(None));
    m.add_function(callee);

    let mut caller = Function::new("caller".into(), vec![], IrType::Void);
    push(
        &mut caller,
        InstKind::Call(FuncRef::Internal(0), vec![]),
        IrType::Void,
    );
    let caller_entry = caller.entry;
    caller.block_mut(caller_entry).terminator = Some(Terminator::Return(None));
    m.add_function(caller);

    assert!(!Dce.run(&mut m));
    assert_eq!(
        m.functions[1].blocks[0].insts.len(),
        1,
        "PURE void calls write hidden-result or intent-out storage and must stay live"
    );
}

#[test]
fn keeps_dead_fp_operation_when_status_is_observed() {
    let mut m = Module::new("t".into(), TargetLayout::LP64);
    let mut f = Function::new("f".into(), vec![], IrType::Int(IntWidth::I32));
    let one = push(
        &mut f,
        InstKind::ConstFloat(bits(1.0), FloatWidth::F64),
        IrType::Float(FloatWidth::F64),
    );
    let zero = push(
        &mut f,
        InstKind::ConstFloat(bits(0.0), FloatWidth::F64),
        IrType::Float(FloatWidth::F64),
    );
    let division = push(
        &mut f,
        InstKind::FDiv(one, zero),
        IrType::Float(FloatWidth::F64),
    );
    let divide_by_zero = push(
        &mut f,
        InstKind::ConstInt(2, IntWidth::I32),
        IrType::Int(IntWidth::I32),
    );
    let raised = push(
        &mut f,
        InstKind::Call(
            FuncRef::External("afs_ieee_test_flag".into()),
            vec![divide_by_zero],
        ),
        IrType::Int(IntWidth::I32),
    );
    let entry = f.entry;
    f.block_mut(entry).terminator = Some(Terminator::Return(Some(raised)));
    m.add_function(f);

    assert!(
        !Dce.run(&mut m),
        "an unused division remains observable through IEEE_DIVIDE_BY_ZERO"
    );
    assert!(
        m.functions[0].blocks[0]
            .insts
            .iter()
            .any(|inst| inst.id == division),
        "DCE removed the only instruction that raises the observed flag"
    );
}

#[test]
fn keeps_unused_pure_call_when_status_observes_callee_fp_operation() {
    let mut m = Module::new("t".into(), TargetLayout::LP64);

    let mut callee = Function::new("divide".into(), vec![], IrType::Float(FloatWidth::F64));
    callee.is_pure = true;
    let one = push(
        &mut callee,
        InstKind::ConstFloat(bits(1.0), FloatWidth::F64),
        IrType::Float(FloatWidth::F64),
    );
    let zero = push(
        &mut callee,
        InstKind::ConstFloat(bits(0.0), FloatWidth::F64),
        IrType::Float(FloatWidth::F64),
    );
    let quotient = push(
        &mut callee,
        InstKind::FDiv(one, zero),
        IrType::Float(FloatWidth::F64),
    );
    let callee_entry = callee.entry;
    callee.block_mut(callee_entry).terminator = Some(Terminator::Return(Some(quotient)));
    m.add_function(callee);

    let mut caller = Function::new("caller".into(), vec![], IrType::Int(IntWidth::I32));
    let call = push(
        &mut caller,
        InstKind::Call(FuncRef::Internal(0), vec![]),
        IrType::Float(FloatWidth::F64),
    );
    let divide_by_zero = push(
        &mut caller,
        InstKind::ConstInt(2, IntWidth::I32),
        IrType::Int(IntWidth::I32),
    );
    let raised = push(
        &mut caller,
        InstKind::Call(
            FuncRef::External("afs_ieee_test_flag".into()),
            vec![divide_by_zero],
        ),
        IrType::Int(IntWidth::I32),
    );
    let caller_entry = caller.entry;
    caller.block_mut(caller_entry).terminator = Some(Terminator::Return(Some(raised)));
    m.add_function(caller);

    assert!(
        !Dce.run(&mut m),
        "a PURE call is not discardable when its FP status effect is observed"
    );
    assert!(
        m.functions[1].blocks[0]
            .insts
            .iter()
            .any(|inst| inst.id == call),
        "DCE removed the call that raises the observed flag"
    );
}

#[test]
fn float_chain_is_dead_without_fp_environment_access() {
    let mut m = Module::new("t".into(), TargetLayout::LP64);
    let mut f = Function::new("f".into(), vec![], IrType::Void);
    let a = push(
        &mut f,
        InstKind::ConstFloat(bits(1.5), FloatWidth::F64),
        IrType::Float(FloatWidth::F64),
    );
    let b = push(
        &mut f,
        InstKind::ConstFloat(bits(2.5), FloatWidth::F64),
        IrType::Float(FloatWidth::F64),
    );
    let _ = push(&mut f, InstKind::FAdd(a, b), IrType::Float(FloatWidth::F64));
    let entry = f.entry;
    f.block_mut(entry).terminator = Some(Terminator::Return(None));
    m.add_function(f);

    assert!(Dce.run(&mut m));
    assert!(m.functions[0].blocks[0].insts.is_empty());
}
