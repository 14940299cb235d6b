use armfortas::ir::inst::{FuncRef, Function, Inst, InstKind, Module, Terminator};
use armfortas::ir::types::{IntWidth, IrType};
use armfortas::lexer::{Position, Span};
use armfortas::opt::call_resolve::CallResolve;
use armfortas::opt::pass::Pass;
use armfortas::target::TargetLayout;

#[test]
fn resolves_internal_calls() {
    let mut m = Module::new("test".into(), TargetLayout::LP64);

    // Callee: function "double_it"
    let mut callee = Function::new("double_it".into(), vec![], IrType::Int(IntWidth::I32));
    callee.block_mut(callee.entry).terminator = Some(Terminator::Return(None));
    m.add_function(callee);

    // Caller: calls "double_it" via External ref
    let mut caller = Function::new("main".into(), vec![], IrType::Void);
    let call_id = caller.next_value_id();
    caller.register_type(call_id, IrType::Int(IntWidth::I32));
    caller.block_mut(caller.entry).insts.push(Inst {
        id: call_id,
        ty: IrType::Int(IntWidth::I32),
        span: Span {
            file_id: 0,
            start: Position { line: 0, col: 0 },
            end: Position { line: 0, col: 0 },
        },
        kind: InstKind::Call(FuncRef::External("double_it".into()), vec![]),
    });
    caller.block_mut(caller.entry).terminator = Some(Terminator::Return(None));
    m.add_function(caller);

    let pass = CallResolve;
    let changed = pass.run(&mut m);
    assert!(changed, "should resolve the internal call");

    // Verify the call was rewritten.
    let caller_func = &m.functions[1];
    let call_inst = &caller_func.blocks[0].insts[0];
    match &call_inst.kind {
        InstKind::Call(FuncRef::Internal(idx), _) => {
            assert_eq!(*idx, 0, "should point to function index 0 (double_it)");
        }
        other => panic!("expected Internal call, got {:?}", other),
    }
}

#[test]
fn leaves_external_calls_unchanged() {
    let mut m = Module::new("test".into(), TargetLayout::LP64);
    let mut f = Function::new("main".into(), vec![], IrType::Void);
    let call_id = f.next_value_id();
    f.register_type(call_id, IrType::Void);
    f.block_mut(f.entry).insts.push(Inst {
        id: call_id,
        ty: IrType::Void,
        span: Span {
            file_id: 0,
            start: Position { line: 0, col: 0 },
            end: Position { line: 0, col: 0 },
        },
        kind: InstKind::Call(FuncRef::External("afs_write_int".into()), vec![]),
    });
    f.block_mut(f.entry).terminator = Some(Terminator::Return(None));
    m.add_function(f);

    let pass = CallResolve;
    let changed = pass.run(&mut m);
    assert!(!changed, "runtime calls should stay External");
}
