use armfortas::ir::inst::{FuncRef, Function, Inst, InstKind, Module, Terminator};
use armfortas::ir::types::IrType;
use armfortas::lexer::{Position, Span};
use armfortas::opt::dead_func::DeadFuncElim;
use armfortas::opt::pass::Pass;
use armfortas::target::TargetLayout;

fn span() -> Span {
    let pos = Position { line: 0, col: 0 };
    Span { file_id: 0, start: pos, end: pos }
}

#[test]
fn removes_uncalled_function() {
    let mut m = Module::new("test".into(), TargetLayout::LP64);
    // func 0: main (entry, kept)
    let mut main_f = Function::new("main".into(), vec![], IrType::Void);
    main_f.block_mut(main_f.entry).terminator = Some(Terminator::Return(None));
    m.add_function(main_f);
    // func 1: dead (never called)
    let mut dead_f = Function::new("dead".into(), vec![], IrType::Void);
    dead_f.block_mut(dead_f.entry).terminator = Some(Terminator::Return(None));
    m.add_function(dead_f);

    assert_eq!(m.functions.len(), 2);
    let pass = DeadFuncElim;
    let changed = pass.run(&mut m);
    assert!(changed);
    assert_eq!(m.functions.len(), 1);
    assert_eq!(m.functions[0].name, "main");
}

#[test]
fn keeps_called_function() {
    let mut m = Module::new("test".into(), TargetLayout::LP64);
    // func 0: caller (entry, always kept) — calls callee at index 1
    let mut caller = Function::new("caller".into(), vec![], IrType::Void);
    let cid = caller.next_value_id();
    caller.register_type(cid, IrType::Void);
    caller.block_mut(caller.entry).insts.push(Inst {
        id: cid, ty: IrType::Void, span: span(),
        kind: InstKind::Call(FuncRef::Internal(1), vec![]),
    });
    caller.block_mut(caller.entry).terminator = Some(Terminator::Return(None));
    m.add_function(caller);
    // func 1: callee — called by func 0, should be kept
    let mut callee = Function::new("callee".into(), vec![], IrType::Void);
    callee.block_mut(callee.entry).terminator = Some(Terminator::Return(None));
    m.add_function(callee);

    let pass = DeadFuncElim;
    let changed = pass.run(&mut m);
    assert!(!changed, "both functions are referenced");
    assert_eq!(m.functions.len(), 2);
}
