use armfortas::ir::inst::{FuncRef, Function, Inst, InstKind, Module, Terminator, ValueId};
use armfortas::ir::types::{IntWidth, IrType};
use armfortas::lexer::{Position, Span};
use armfortas::opt::alias::AliasOracle;
use armfortas::opt::dse::{Dse, find_dead_stores};
use armfortas::opt::pass::Pass;
use armfortas::target::TargetLayout;

fn dummy_span() -> Span {
    let p = Position { line: 1, col: 1 };
    Span {
        start: p,
        end: p,
        file_id: 0,
    }
}

fn push(f: &mut Function, kind: InstKind, ty: IrType) -> ValueId {
    let id = f.next_value_id();
    let entry = f.entry;
    f.block_mut(entry).insts.push(Inst {
        id,
        kind,
        ty,
        span: dummy_span(),
    });
    id
}

fn ptr_ty() -> IrType {
    IrType::Ptr(Box::new(IrType::Int(IntWidth::I32)))
}
fn alloca_ty() -> IrType {
    IrType::Int(IntWidth::I32)
}
fn i32_ty() -> IrType {
    IrType::Int(IntWidth::I32)
}

/// %ptr = alloca i32
/// store 1, %ptr
/// store 2, %ptr    ← first store is dead
/// load  %ptr
#[test]
fn double_store_kills_first() {
    let mut m = Module::new("t".into(), TargetLayout::LP64);
    let mut f = Function::new("f".into(), vec![], IrType::Void);
    let ptr = push(&mut f, InstKind::Alloca(alloca_ty()), ptr_ty());
    let v1 = push(&mut f, InstKind::ConstInt(1, IntWidth::I32), i32_ty());
    let v2 = push(&mut f, InstKind::ConstInt(2, IntWidth::I32), i32_ty());
    push(&mut f, InstKind::Store(v1, ptr), IrType::Void); // dead
    push(&mut f, InstKind::Store(v2, ptr), IrType::Void); // live
    let _loaded = push(&mut f, InstKind::Load(ptr), i32_ty());
    let entry = f.entry;
    f.block_mut(entry).terminator = Some(Terminator::Return(None));
    m.add_function(f);

    assert!(Dse.run(&mut m), "DSE should remove the dead store");
    // alloca, v1, v2, live_store, load = 5 remaining (store 1 gone)
    let insts = &m.functions[0].blocks[0].insts;
    assert_eq!(insts.len(), 5, "first store should be eliminated");
    // The surviving Store should use v2.
    let stores: Vec<_> = insts
        .iter()
        .filter(|i| matches!(i.kind, InstKind::Store(..)))
        .collect();
    assert_eq!(stores.len(), 1);
    assert!(matches!(stores[0].kind, InstKind::Store(v, _) if v == v2));
}

#[test]
fn volatile_access_is_a_dead_store_barrier() {
    let mut m = Module::new("t".into(), TargetLayout::LP64);
    let mut f = Function::new("f".into(), vec![], IrType::Void);
    let ptr = push(&mut f, InstKind::Alloca(alloca_ty()), ptr_ty());
    let v1 = push(&mut f, InstKind::ConstInt(1, IntWidth::I32), i32_ty());
    let v2 = push(&mut f, InstKind::ConstInt(2, IntWidth::I32), i32_ty());
    push(&mut f, InstKind::Store(v1, ptr), IrType::Void);
    push(&mut f, InstKind::VolatileLoad(ptr), i32_ty());
    push(&mut f, InstKind::Store(v2, ptr), IrType::Void);
    let entry = f.entry;
    f.block_mut(entry).terminator = Some(Terminator::Return(None));
    m.add_function(f);

    assert!(!Dse.run(&mut m));
    assert_eq!(
        m.functions[0].blocks[0]
            .insts
            .iter()
            .filter(|inst| matches!(inst.kind, InstKind::Store(..)))
            .count(),
        2
    );
}

#[test]
fn does_not_remove_global_store_across_zero_argument_call() {
    let mut m = Module::new("t".into(), TargetLayout::LP64);
    let mut f = Function::new("f".into(), vec![], IrType::Void);
    let global = push(&mut f, InstKind::GlobalAddr("state".into()), ptr_ty());
    let v1 = push(&mut f, InstKind::ConstInt(1, IntWidth::I32), i32_ty());
    let v2 = push(&mut f, InstKind::ConstInt(2, IntWidth::I32), i32_ty());
    push(&mut f, InstKind::Store(v1, global), IrType::Void);
    push(
        &mut f,
        InstKind::Call(FuncRef::External("observe_global".into()), vec![]),
        IrType::Void,
    );
    push(&mut f, InstKind::Store(v2, global), IrType::Void);
    let entry = f.entry;
    f.block_mut(entry).terminator = Some(Terminator::Return(None));
    m.add_function(f);

    assert!(
        !Dse.run(&mut m),
        "DSE must preserve a global store observable by an intervening call"
    );
    assert_eq!(
        m.functions[0].blocks[0]
            .insts
            .iter()
            .filter(|inst| matches!(inst.kind, InstKind::Store(..)))
            .count(),
        2
    );
}

#[test]
fn aggregate_call_arg_preserves_store_reachable_through_wrapped_pointer() {
    let mut m = Module::new("t".into(), TargetLayout::LP64);
    let mut f = Function::new("f".into(), vec![], IrType::Void);

    let payload = push(&mut f, InstKind::Alloca(alloca_ty()), ptr_ty());
    let wrapper_ty = IrType::Array(Box::new(IrType::Int(IntWidth::I8)), 16);
    let wrapper = push(
        &mut f,
        InstKind::Alloca(wrapper_ty.clone()),
        IrType::Ptr(Box::new(wrapper_ty)),
    );
    let zero = push(
        &mut f,
        InstKind::ConstInt(0, IntWidth::I64),
        IrType::Int(IntWidth::I64),
    );
    let wrapper_slot = push(
        &mut f,
        InstKind::GetElementPtr(wrapper, vec![zero]),
        IrType::Ptr(Box::new(ptr_ty())),
    );
    let v1 = push(&mut f, InstKind::ConstInt(1, IntWidth::I32), i32_ty());
    let v2 = push(&mut f, InstKind::ConstInt(2, IntWidth::I32), i32_ty());
    push(&mut f, InstKind::Store(v1, payload), IrType::Void);
    push(&mut f, InstKind::Store(payload, wrapper_slot), IrType::Void);
    push(
        &mut f,
        InstKind::Call(FuncRef::External("observe_indirect".into()), vec![wrapper]),
        IrType::Void,
    );
    push(&mut f, InstKind::Store(v2, payload), IrType::Void);
    f.block_mut(f.entry).terminator = Some(Terminator::Return(None));
    m.add_function(f);

    assert!(
        !Dse.run(&mut m),
        "DSE must preserve a store observable through a pointer carried by an aggregate"
    );
    assert_eq!(
        m.functions[0].blocks[0]
            .insts
            .iter()
            .filter(|inst| matches!(inst.kind, InstKind::Store(..)))
            .count(),
        3
    );
}

/// store then load: first store is live (must not be removed).
#[test]
fn store_then_load_is_live() {
    let mut m = Module::new("t".into(), TargetLayout::LP64);
    let mut f = Function::new("f".into(), vec![], i32_ty());
    let ptr = push(&mut f, InstKind::Alloca(alloca_ty()), ptr_ty());
    let v1 = push(&mut f, InstKind::ConstInt(42, IntWidth::I32), i32_ty());
    push(&mut f, InstKind::Store(v1, ptr), IrType::Void);
    let loaded = push(&mut f, InstKind::Load(ptr), i32_ty());
    let entry = f.entry;
    f.block_mut(entry).terminator = Some(Terminator::Return(Some(loaded)));
    m.add_function(f);

    assert!(!Dse.run(&mut m), "nothing should be removed");
    assert_eq!(m.functions[0].blocks[0].insts.len(), 4);
}

/// Same base + same offset through distinct GEP values still aliases.
#[test]
fn same_offset_geps_kill_earlier_store() {
    let mut m = Module::new("t".into(), TargetLayout::LP64);
    let mut f = Function::new("f".into(), vec![], IrType::Void);
    let arr_ty = IrType::Array(Box::new(IrType::Int(IntWidth::I32)), 4);
    let arr_ptr_ty = IrType::Ptr(Box::new(arr_ty.clone()));
    let ptr = push(&mut f, InstKind::Alloca(arr_ty), arr_ptr_ty);
    let off0 = push(&mut f, InstKind::ConstInt(0, IntWidth::I32), i32_ty());
    let off1 = push(&mut f, InstKind::ConstInt(0, IntWidth::I32), i32_ty());
    let gep0 = push(
        &mut f,
        InstKind::GetElementPtr(ptr, vec![off0]),
        IrType::Ptr(Box::new(IrType::Int(IntWidth::I8))),
    );
    let gep1 = push(
        &mut f,
        InstKind::GetElementPtr(ptr, vec![off1]),
        IrType::Ptr(Box::new(IrType::Int(IntWidth::I8))),
    );
    let v1 = push(&mut f, InstKind::ConstInt(1, IntWidth::I32), i32_ty());
    let v2 = push(&mut f, InstKind::ConstInt(2, IntWidth::I32), i32_ty());
    push(&mut f, InstKind::Store(v1, gep0), IrType::Void); // dead
    push(&mut f, InstKind::Store(v2, gep1), IrType::Void); // live
    let entry = f.entry;
    f.block_mut(entry).terminator = Some(Terminator::Return(None));
    m.add_function(f);

    assert!(Dse.run(&mut m));
    let stores: Vec<_> = m.functions[0].blocks[0]
        .insts
        .iter()
        .filter(|i| matches!(i.kind, InstKind::Store(..)))
        .collect();
    assert_eq!(
        stores.len(),
        1,
        "must-alias GEP overwrite should kill the first store"
    );
    assert!(matches!(stores[0].kind, InstKind::Store(v, _) if v == v2));
}

/// Three consecutive stores to the same address: only the last is live.
#[test]
fn triple_store_keeps_last() {
    let mut m = Module::new("t".into(), TargetLayout::LP64);
    let mut f = Function::new("f".into(), vec![], IrType::Void);
    let ptr = push(&mut f, InstKind::Alloca(alloca_ty()), ptr_ty());
    let v1 = push(&mut f, InstKind::ConstInt(1, IntWidth::I32), i32_ty());
    let v2 = push(&mut f, InstKind::ConstInt(2, IntWidth::I32), i32_ty());
    let v3 = push(&mut f, InstKind::ConstInt(3, IntWidth::I32), i32_ty());
    push(&mut f, InstKind::Store(v1, ptr), IrType::Void); // dead
    push(&mut f, InstKind::Store(v2, ptr), IrType::Void); // dead
    push(&mut f, InstKind::Store(v3, ptr), IrType::Void); // live (block exit)
    let entry = f.entry;
    f.block_mut(entry).terminator = Some(Terminator::Return(None));
    m.add_function(f);

    // After DSE: alloca + v1 + v2 + v3 + store(v3) = 5
    // (stores of v1 and v2 are dead; store of v3 remains because it
    //  might be read in a successor — we don't do cross-block analysis)
    assert!(Dse.run(&mut m));
    let stores: Vec<_> = m.functions[0].blocks[0]
        .insts
        .iter()
        .filter(|i| matches!(i.kind, InstKind::Store(..)))
        .collect();
    // Two dead stores removed, one survives.
    assert_eq!(stores.len(), 1);
    assert!(matches!(stores[0].kind, InstKind::Store(v, _) if v == v3));
}

#[test]
fn vector_load_observes_pending_scalar_store() {
    let mut m = Module::new("t".into(), TargetLayout::LP64);
    let mut f = Function::new("f".into(), vec![], IrType::Void);
    let array = IrType::Array(Box::new(i32_ty()), 4);
    let base = push(
        &mut f,
        InstKind::Alloca(array.clone()),
        IrType::Ptr(Box::new(array)),
    );
    let zero = push(
        &mut f,
        InstKind::ConstInt(0, IntWidth::I64),
        IrType::Int(IntWidth::I64),
    );
    let one = push(
        &mut f,
        InstKind::ConstInt(1, IntWidth::I64),
        IrType::Int(IntWidth::I64),
    );
    let vector_ptr = push(&mut f, InstKind::GetElementPtr(base, vec![zero]), ptr_ty());
    let scalar_ptr = push(&mut f, InstKind::GetElementPtr(base, vec![one]), ptr_ty());
    let v1 = push(&mut f, InstKind::ConstInt(1, IntWidth::I32), i32_ty());
    let v2 = push(&mut f, InstKind::ConstInt(2, IntWidth::I32), i32_ty());
    push(&mut f, InstKind::Store(v1, scalar_ptr), IrType::Void);
    push(
        &mut f,
        InstKind::VLoad(vector_ptr),
        IrType::Vector {
            lanes: 4,
            elem: Box::new(i32_ty()),
        },
    );
    push(&mut f, InstKind::Store(v2, scalar_ptr), IrType::Void);
    f.block_mut(f.entry).terminator = Some(Terminator::Return(None));
    m.add_function(f);

    assert!(!Dse.run(&mut m));
    assert_eq!(
        m.functions[0].blocks[0]
            .insts
            .iter()
            .filter(|inst| matches!(inst.kind, InstKind::Store(..)))
            .count(),
        2
    );
}

#[test]
fn vector_store_is_a_conservative_pending_store_barrier() {
    let mut m = Module::new("t".into(), TargetLayout::LP64);
    let mut f = Function::new("f".into(), vec![], IrType::Void);
    let ptr = push(&mut f, InstKind::Alloca(alloca_ty()), ptr_ty());
    let v1 = push(&mut f, InstKind::ConstInt(1, IntWidth::I32), i32_ty());
    let v2 = push(&mut f, InstKind::ConstInt(2, IntWidth::I32), i32_ty());
    let vector = push(
        &mut f,
        InstKind::VBroadcast(v1),
        IrType::Vector {
            lanes: 4,
            elem: Box::new(i32_ty()),
        },
    );
    push(&mut f, InstKind::Store(v1, ptr), IrType::Void);
    push(&mut f, InstKind::VStore(vector, ptr), IrType::Void);
    push(&mut f, InstKind::Store(v2, ptr), IrType::Void);
    f.block_mut(f.entry).terminator = Some(Terminator::Return(None));
    m.add_function(f);

    assert!(!Dse.run(&mut m));
    assert_eq!(
        m.functions[0].blocks[0]
            .insts
            .iter()
            .filter(|inst| matches!(inst.kind, InstKind::Store(..)))
            .count(),
        2
    );
}

#[test]
fn mixed_width_overwrite_does_not_kill_wider_store() {
    let mut m = Module::new("t".into(), TargetLayout::LP64);
    let mut f = Function::new("f".into(), vec![], IrType::Void);
    let byte_array = IrType::Array(Box::new(IrType::Int(IntWidth::I8)), 16);
    let base = push(
        &mut f,
        InstKind::Alloca(byte_array.clone()),
        IrType::Ptr(Box::new(byte_array)),
    );
    let zero = push(
        &mut f,
        InstKind::ConstInt(0, IntWidth::I64),
        IrType::Int(IntWidth::I64),
    );
    let ptr_i64 = push(
        &mut f,
        InstKind::GetElementPtr(base, vec![zero]),
        IrType::Ptr(Box::new(IrType::Int(IntWidth::I64))),
    );
    let ptr_i32 = push(
        &mut f,
        InstKind::GetElementPtr(base, vec![zero]),
        IrType::Ptr(Box::new(i32_ty())),
    );
    let wide = push(
        &mut f,
        InstKind::ConstInt(1, IntWidth::I64),
        IrType::Int(IntWidth::I64),
    );
    let narrow = push(&mut f, InstKind::ConstInt(2, IntWidth::I32), i32_ty());
    push(&mut f, InstKind::Store(wide, ptr_i64), IrType::Void);
    push(&mut f, InstKind::Store(narrow, ptr_i32), IrType::Void);
    f.block_mut(f.entry).terminator = Some(Terminator::Return(None));
    m.add_function(f);

    assert!(!Dse.run(&mut m));
    assert_eq!(
        m.functions[0].blocks[0]
            .insts
            .iter()
            .filter(|inst| matches!(inst.kind, InstKind::Store(..)))
            .count(),
        2
    );
}

#[test]
fn independent_stores_do_not_issue_pairwise_alias_queries() {
    const COUNT: u64 = 2048;

    let mut f = Function::new("store_scaling".into(), vec![], IrType::Void);
    let array = IrType::Array(Box::new(i32_ty()), COUNT);
    let base = push(
        &mut f,
        InstKind::Alloca(array.clone()),
        IrType::Ptr(Box::new(array)),
    );
    let value = push(&mut f, InstKind::ConstInt(1, IntWidth::I32), i32_ty());
    for index in 0..COUNT {
        let offset = push(
            &mut f,
            InstKind::ConstInt(index as i128, IntWidth::I64),
            IrType::Int(IntWidth::I64),
        );
        let ptr = push(
            &mut f,
            InstKind::GetElementPtr(base, vec![offset]),
            ptr_ty(),
        );
        push(&mut f, InstKind::Store(value, ptr), IrType::Void);
    }
    let entry = f.entry;
    f.block_mut(entry).terminator = Some(Terminator::Return(None));

    let mut oracle = AliasOracle::new(&f, TargetLayout::LP64);
    let dead = find_dead_stores(&f.blocks[0], &mut oracle);
    assert!(dead.is_empty());
    assert_eq!(
        oracle.query_count(),
        0,
        "independent stores must use the location index, not pairwise alias queries"
    );
}
