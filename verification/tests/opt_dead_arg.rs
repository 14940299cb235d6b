use armfortas::ir::inst::{FuncRef, Function, Inst, InstKind, Module, Param, Terminator, ValueId};
use armfortas::ir::types::{IntWidth, IrType};
use armfortas::lexer::{Position, Span};
use armfortas::opt::dead_arg::DeadArgElim;
use armfortas::opt::pass::Pass;
use armfortas::target::TargetLayout;

fn span() -> Span {
    let pos = Position { line: 0, col: 0 };
    Span {
        file_id: 0,
        start: pos,
        end: pos,
    }
}

fn push(f: &mut Function, kind: InstKind, ty: IrType) -> ValueId {
    let id = f.next_value_id();
    let entry = f.entry;
    f.block_mut(entry).insts.push(Inst {
        id,
        kind,
        ty: ty.clone(),
        span: span(),
    });
    f.register_type(id, ty);
    id
}

#[test]
fn trims_unused_param_and_call_arg_for_internal_only_function() {
    let mut module = Module::new("t".into(), TargetLayout::LP64);

    let params = vec![
        Param {
            name: "x".into(),
            ty: IrType::Int(IntWidth::I32),
            id: ValueId(0),
            fortran_noalias: false,
        },
        Param {
            name: "unused".into(),
            ty: IrType::Int(IntWidth::I32),
            id: ValueId(1),
            fortran_noalias: false,
        },
    ];
    let mut callee = Function::new("helper".into(), params, IrType::Int(IntWidth::I32));
    callee.internal_only = true;
    let callee_entry = callee.entry;
    callee.block_mut(callee_entry).terminator = Some(Terminator::Return(Some(ValueId(0))));
    module.add_function(callee);

    let mut caller = Function::new("main".into(), vec![], IrType::Int(IntWidth::I32));
    let a = push(
        &mut caller,
        InstKind::ConstInt(7, IntWidth::I32),
        IrType::Int(IntWidth::I32),
    );
    let b = push(
        &mut caller,
        InstKind::ConstInt(9, IntWidth::I32),
        IrType::Int(IntWidth::I32),
    );
    let call = push(
        &mut caller,
        InstKind::Call(FuncRef::Internal(0), vec![a, b]),
        IrType::Int(IntWidth::I32),
    );
    let caller_entry = caller.entry;
    caller.block_mut(caller_entry).terminator = Some(Terminator::Return(Some(call)));
    module.add_function(caller);

    assert!(DeadArgElim.run(&mut module));
    assert_eq!(module.functions[0].params.len(), 1);

    let call_args = match &module.functions[1].blocks[0].insts[2].kind {
        InstKind::Call(FuncRef::Internal(0), args) => args,
        other => panic!("expected internal call, got {:?}", other),
    };
    assert_eq!(call_args, &vec![a]);
}

#[test]
fn preserves_abi_for_non_internal_function() {
    let mut module = Module::new("t".into(), TargetLayout::LP64);
    let params = vec![
        Param {
            name: "x".into(),
            ty: IrType::Int(IntWidth::I32),
            id: ValueId(0),
            fortran_noalias: false,
        },
        Param {
            name: "unused".into(),
            ty: IrType::Int(IntWidth::I32),
            id: ValueId(1),
            fortran_noalias: false,
        },
    ];
    let mut func = Function::new("exported".into(), params, IrType::Int(IntWidth::I32));
    let entry = func.entry;
    func.block_mut(entry).terminator = Some(Terminator::Return(Some(ValueId(0))));
    module.add_function(func);

    assert!(!DeadArgElim.run(&mut module));
    assert_eq!(module.functions[0].params.len(), 2);
}

#[test]
fn preserves_non_internal_call_args_when_trimming_other_function() {
    let mut module = Module::new("t".into(), TargetLayout::LP64);

    let exported_params = vec![
        Param {
            name: "lhs".into(),
            ty: IrType::Int(IntWidth::I32),
            id: ValueId(0),
            fortran_noalias: false,
        },
        Param {
            name: "rhs".into(),
            ty: IrType::Int(IntWidth::I32),
            id: ValueId(1),
            fortran_noalias: false,
        },
    ];
    let mut exported = Function::new(
        "module_proc".into(),
        exported_params,
        IrType::Int(IntWidth::I32),
    );
    let exported_entry = exported.entry;
    exported.block_mut(exported_entry).terminator = Some(Terminator::Return(Some(ValueId(0))));
    module.add_function(exported);

    let helper_params = vec![Param {
        name: "unused".into(),
        ty: IrType::Int(IntWidth::I32),
        id: ValueId(0),
        fortran_noalias: false,
    }];
    let mut helper = Function::new("contained_helper".into(), helper_params, IrType::Void);
    helper.internal_only = true;
    let helper_entry = helper.entry;
    helper.block_mut(helper_entry).terminator = Some(Terminator::Return(None));
    module.add_function(helper);

    let mut caller = Function::new("main".into(), vec![], IrType::Int(IntWidth::I32));
    let lhs = push(
        &mut caller,
        InstKind::ConstInt(7, IntWidth::I32),
        IrType::Int(IntWidth::I32),
    );
    let rhs = push(
        &mut caller,
        InstKind::ConstInt(9, IntWidth::I32),
        IrType::Int(IntWidth::I32),
    );
    let exported_call = push(
        &mut caller,
        InstKind::Call(FuncRef::Internal(0), vec![lhs, rhs]),
        IrType::Int(IntWidth::I32),
    );
    push(
        &mut caller,
        InstKind::Call(FuncRef::Internal(1), vec![rhs]),
        IrType::Void,
    );
    let caller_entry = caller.entry;
    caller.block_mut(caller_entry).terminator = Some(Terminator::Return(Some(exported_call)));
    module.add_function(caller);

    assert!(DeadArgElim.run(&mut module));
    assert_eq!(module.functions[0].params.len(), 2);
    assert_eq!(module.functions[1].params.len(), 0);

    let exported_args = match &module.functions[2].blocks[0].insts[2].kind {
        InstKind::Call(FuncRef::Internal(0), args) => args,
        other => panic!(
            "expected call to exported internal function, got {:?}",
            other
        ),
    };
    assert_eq!(
        exported_args,
        &vec![lhs, rhs],
        "non-internal module-procedure call arguments are ABI, not dead-arg slots"
    );

    let helper_args = match &module.functions[2].blocks[0].insts[3].kind {
        InstKind::Call(FuncRef::Internal(1), args) => args,
        other => panic!("expected call to internal-only helper, got {:?}", other),
    };
    assert!(helper_args.is_empty());
}
