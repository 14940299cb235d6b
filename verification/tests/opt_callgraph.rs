use armfortas::ir::inst::{FuncRef, Function, Inst, InstKind, Module, Terminator};
use armfortas::ir::types::{IntWidth, IrType};
use armfortas::lexer::{Position, Span};
use armfortas::opt::callgraph::CallGraph;
use armfortas::target::TargetLayout;

fn span() -> Span {
    let pos = Position { line: 0, col: 0 };
    Span {
        file_id: 0,
        start: pos,
        end: pos,
    }
}

#[test]
fn detects_self_recursion() {
    let mut m = Module::new("test".into(), TargetLayout::LP64);
    let mut f = Function::new("factorial".into(), vec![], IrType::Int(IntWidth::I32));
    // Self-call: factorial calls factorial.
    let call_id = f.next_value_id();
    f.register_type(call_id, IrType::Int(IntWidth::I32));
    f.block_mut(f.entry).insts.push(Inst {
        id: call_id,
        ty: IrType::Int(IntWidth::I32),
        span: span(),
        kind: InstKind::Call(FuncRef::Internal(0), vec![]),
    });
    f.block_mut(f.entry).terminator = Some(Terminator::Return(Some(call_id)));
    m.add_function(f);

    let cg = CallGraph::build(&m);
    assert!(
        cg.is_recursive(0),
        "self-calling function should be recursive"
    );
}

#[test]
fn non_recursive_detected() {
    let mut m = Module::new("test".into(), TargetLayout::LP64);
    // Function 0: "callee" — no calls.
    let mut callee = Function::new("callee".into(), vec![], IrType::Int(IntWidth::I32));
    callee.block_mut(callee.entry).terminator = Some(Terminator::Return(None));
    m.add_function(callee);

    // Function 1: "caller" — calls callee (Internal(0)).
    let mut caller = Function::new("caller".into(), vec![], IrType::Void);
    let call_id = caller.next_value_id();
    caller.register_type(call_id, IrType::Int(IntWidth::I32));
    caller.block_mut(caller.entry).insts.push(Inst {
        id: call_id,
        ty: IrType::Int(IntWidth::I32),
        span: span(),
        kind: InstKind::Call(FuncRef::Internal(0), vec![]),
    });
    caller.block_mut(caller.entry).terminator = Some(Terminator::Return(None));
    m.add_function(caller);

    let cg = CallGraph::build(&m);
    assert!(!cg.is_recursive(0), "callee should not be recursive");
    assert!(!cg.is_recursive(1), "caller should not be recursive");
    assert_eq!(cg.nodes[1].callees, vec![0]);
    assert_eq!(cg.nodes[0].callers, vec![1]);
}

#[test]
fn bottom_up_order_callees_first() {
    let mut m = Module::new("test".into(), TargetLayout::LP64);
    // callee (idx 0) — no calls
    let mut callee = Function::new("callee".into(), vec![], IrType::Void);
    callee.block_mut(callee.entry).terminator = Some(Terminator::Return(None));
    m.add_function(callee);
    // caller (idx 1) — calls callee
    let mut caller = Function::new("caller".into(), vec![], IrType::Void);
    let cid = caller.next_value_id();
    caller.register_type(cid, IrType::Void);
    caller.block_mut(caller.entry).insts.push(Inst {
        id: cid,
        ty: IrType::Void,
        span: span(),
        kind: InstKind::Call(FuncRef::Internal(0), vec![]),
    });
    caller.block_mut(caller.entry).terminator = Some(Terminator::Return(None));
    m.add_function(caller);

    let cg = CallGraph::build(&m);
    let rpo = cg.bottom_up_order();
    // Callee should come before caller in RPO.
    let callee_pos = rpo.iter().position(|&i| i == 0).unwrap();
    let caller_pos = rpo.iter().position(|&i| i == 1).unwrap();
    assert!(
        callee_pos < caller_pos,
        "callee should come before caller in RPO"
    );
}
