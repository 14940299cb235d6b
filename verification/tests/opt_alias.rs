use armfortas::ir::inst::{Function, Inst, InstKind, Param, Terminator, ValueId};
use armfortas::ir::types::{IntWidth, IrType};
use armfortas::lexer::{Position, Span};
use armfortas::opt::alias::{AliasResult, query};
use armfortas::target::TargetLayout;

fn span() -> Span {
    let pos = Position { line: 0, col: 0 };
    Span {
        file_id: 0,
        start: pos,
        end: pos,
    }
}

fn param(name: &str, id: u32, ty: IrType, fortran_noalias: bool) -> Param {
    Param {
        name: name.into(),
        ty,
        id: ValueId(id),
        fortran_noalias,
    }
}

#[test]
fn distinct_allocas_no_alias() {
    let mut f = Function::new("test".into(), vec![], IrType::Void);
    let a = f.next_value_id();
    f.register_type(a, IrType::Ptr(Box::new(IrType::Int(IntWidth::I32))));
    f.block_mut(f.entry).insts.push(Inst {
        id: a,
        ty: IrType::Ptr(Box::new(IrType::Int(IntWidth::I32))),
        span: span(),
        kind: InstKind::Alloca(IrType::Int(IntWidth::I32)),
    });
    let b = f.next_value_id();
    f.register_type(b, IrType::Ptr(Box::new(IrType::Int(IntWidth::I32))));
    f.block_mut(f.entry).insts.push(Inst {
        id: b,
        ty: IrType::Ptr(Box::new(IrType::Int(IntWidth::I32))),
        span: span(),
        kind: InstKind::Alloca(IrType::Int(IntWidth::I32)),
    });
    f.block_mut(f.entry).terminator = Some(Terminator::Return(None));

    assert_eq!(
        query(&f, a, b, TargetLayout::LP64),
        AliasResult::NoAlias
    );
}

#[test]
fn same_pointer_must_alias() {
    let mut f = Function::new("test".into(), vec![], IrType::Void);
    let a = f.next_value_id();
    f.register_type(a, IrType::Ptr(Box::new(IrType::Int(IntWidth::I32))));
    f.block_mut(f.entry).insts.push(Inst {
        id: a,
        ty: IrType::Ptr(Box::new(IrType::Int(IntWidth::I32))),
        span: span(),
        kind: InstKind::Alloca(IrType::Int(IntWidth::I32)),
    });
    f.block_mut(f.entry).terminator = Some(Terminator::Return(None));

    assert_eq!(
        query(&f, a, a, TargetLayout::LP64),
        AliasResult::MustAlias
    );
}

#[test]
fn mixed_width_geps_same_index_do_not_must_alias() {
    let mut f = Function::new("test".into(), vec![], IrType::Void);
    let base_ty = IrType::Array(Box::new(IrType::Int(IntWidth::I8)), 384);
    let base = f.next_value_id();
    f.register_type(base, IrType::Ptr(Box::new(base_ty.clone())));
    f.block_mut(f.entry).insts.push(Inst {
        id: base,
        ty: IrType::Ptr(Box::new(base_ty)),
        span: span(),
        kind: InstKind::Alloca(IrType::Array(Box::new(IrType::Int(IntWidth::I8)), 384)),
    });

    let four = f.next_value_id();
    f.register_type(four, IrType::Int(IntWidth::I64));
    f.block_mut(f.entry).insts.push(Inst {
        id: four,
        ty: IrType::Int(IntWidth::I64),
        span: span(),
        kind: InstKind::ConstInt(4, IntWidth::I64),
    });

    let gep_i32 = f.next_value_id();
    f.register_type(gep_i32, IrType::Ptr(Box::new(IrType::Int(IntWidth::I32))));
    f.block_mut(f.entry).insts.push(Inst {
        id: gep_i32,
        ty: IrType::Ptr(Box::new(IrType::Int(IntWidth::I32))),
        span: span(),
        kind: InstKind::GetElementPtr(base, vec![four]),
    });

    let gep_i64 = f.next_value_id();
    f.register_type(gep_i64, IrType::Ptr(Box::new(IrType::Int(IntWidth::I64))));
    f.block_mut(f.entry).insts.push(Inst {
        id: gep_i64,
        ty: IrType::Ptr(Box::new(IrType::Int(IntWidth::I64))),
        span: span(),
        kind: InstKind::GetElementPtr(base, vec![four]),
    });

    f.block_mut(f.entry).terminator = Some(Terminator::Return(None));

    assert_eq!(
        query(&f, gep_i32, gep_i64, TargetLayout::LP64),
        AliasResult::NoAlias
    );
}

#[test]
fn gep_different_offsets_no_alias() {
    let mut f = Function::new("test".into(), vec![], IrType::Void);
    let base = f.next_value_id();
    f.register_type(base, IrType::Ptr(Box::new(IrType::Int(IntWidth::I32))));
    f.block_mut(f.entry).insts.push(Inst {
        id: base,
        ty: IrType::Ptr(Box::new(IrType::Int(IntWidth::I32))),
        span: span(),
        kind: InstKind::Alloca(IrType::Array(Box::new(IrType::Int(IntWidth::I32)), 10)),
    });
    // GEP at offset 0
    let c0 = f.next_value_id();
    f.register_type(c0, IrType::Int(IntWidth::I64));
    f.block_mut(f.entry).insts.push(Inst {
        id: c0,
        ty: IrType::Int(IntWidth::I64),
        span: span(),
        kind: InstKind::ConstInt(0, IntWidth::I64),
    });
    let gep0 = f.next_value_id();
    f.register_type(gep0, IrType::Ptr(Box::new(IrType::Int(IntWidth::I32))));
    f.block_mut(f.entry).insts.push(Inst {
        id: gep0,
        ty: IrType::Ptr(Box::new(IrType::Int(IntWidth::I32))),
        span: span(),
        kind: InstKind::GetElementPtr(base, vec![c0]),
    });
    // GEP at offset 1
    let c1 = f.next_value_id();
    f.register_type(c1, IrType::Int(IntWidth::I64));
    f.block_mut(f.entry).insts.push(Inst {
        id: c1,
        ty: IrType::Int(IntWidth::I64),
        span: span(),
        kind: InstKind::ConstInt(1, IntWidth::I64),
    });
    let gep1 = f.next_value_id();
    f.register_type(gep1, IrType::Ptr(Box::new(IrType::Int(IntWidth::I32))));
    f.block_mut(f.entry).insts.push(Inst {
        id: gep1,
        ty: IrType::Ptr(Box::new(IrType::Int(IntWidth::I32))),
        span: span(),
        kind: InstKind::GetElementPtr(base, vec![c1]),
    });
    f.block_mut(f.entry).terminator = Some(Terminator::Return(None));

    assert_eq!(
        query(&f, gep0, gep1, TargetLayout::LP64),
        AliasResult::NoAlias
    );
}

#[test]
fn aggregate_base_and_element_gep_may_alias() {
    let mut f = Function::new("test".into(), vec![], IrType::Void);
    let base = f.next_value_id();
    f.register_type(
        base,
        IrType::Ptr(Box::new(IrType::Array(
            Box::new(IrType::Int(IntWidth::I32)),
            10,
        ))),
    );
    f.block_mut(f.entry).insts.push(Inst {
        id: base,
        ty: IrType::Ptr(Box::new(IrType::Array(
            Box::new(IrType::Int(IntWidth::I32)),
            10,
        ))),
        span: span(),
        kind: InstKind::Alloca(IrType::Array(Box::new(IrType::Int(IntWidth::I32)), 10)),
    });

    let c1 = f.next_value_id();
    f.register_type(c1, IrType::Int(IntWidth::I64));
    f.block_mut(f.entry).insts.push(Inst {
        id: c1,
        ty: IrType::Int(IntWidth::I64),
        span: span(),
        kind: InstKind::ConstInt(1, IntWidth::I64),
    });

    let gep1 = f.next_value_id();
    f.register_type(gep1, IrType::Ptr(Box::new(IrType::Int(IntWidth::I32))));
    f.block_mut(f.entry).insts.push(Inst {
        id: gep1,
        ty: IrType::Ptr(Box::new(IrType::Int(IntWidth::I32))),
        span: span(),
        kind: InstKind::GetElementPtr(base, vec![c1]),
    });
    f.block_mut(f.entry).terminator = Some(Terminator::Return(None));

    assert_eq!(
        query(&f, base, gep1, TargetLayout::LP64),
        AliasResult::MayAlias
    );
}

#[test]
fn distinct_globals_no_alias() {
    let mut f = Function::new("test".into(), vec![], IrType::Void);
    let ga = f.next_value_id();
    f.register_type(ga, IrType::Ptr(Box::new(IrType::Int(IntWidth::I32))));
    f.block_mut(f.entry).insts.push(Inst {
        id: ga,
        ty: IrType::Ptr(Box::new(IrType::Int(IntWidth::I32))),
        span: span(),
        kind: InstKind::GlobalAddr("array_a".into()),
    });
    let gb = f.next_value_id();
    f.register_type(gb, IrType::Ptr(Box::new(IrType::Int(IntWidth::I32))));
    f.block_mut(f.entry).insts.push(Inst {
        id: gb,
        ty: IrType::Ptr(Box::new(IrType::Int(IntWidth::I32))),
        span: span(),
        kind: InstKind::GlobalAddr("array_b".into()),
    });
    f.block_mut(f.entry).terminator = Some(Terminator::Return(None));

    assert_eq!(
        query(&f, ga, gb, TargetLayout::LP64),
        AliasResult::NoAlias
    );
}

#[test]
fn distinct_noalias_params_do_not_alias() {
    let params = vec![
        param(
            "a",
            0,
            IrType::Ptr(Box::new(IrType::Int(IntWidth::I32))),
            true,
        ),
        param(
            "b",
            1,
            IrType::Ptr(Box::new(IrType::Int(IntWidth::I32))),
            true,
        ),
    ];
    let mut f = Function::new("test".into(), params, IrType::Void);
    f.block_mut(f.entry).terminator = Some(Terminator::Return(None));

    assert_eq!(
        query(
            &f,
            ValueId(0),
            ValueId(1),
            TargetLayout::LP64
        ),
        AliasResult::NoAlias
    );
}

#[test]
fn wrapper_loads_trace_back_to_noalias_params() {
    let params = vec![
        param(
            "a",
            0,
            IrType::Ptr(Box::new(IrType::Int(IntWidth::I32))),
            true,
        ),
        param(
            "b",
            1,
            IrType::Ptr(Box::new(IrType::Int(IntWidth::I32))),
            true,
        ),
    ];
    let mut f = Function::new("test".into(), params, IrType::Void);

    let slot_a = f.next_value_id();
    f.register_type(
        slot_a,
        IrType::Ptr(Box::new(IrType::Ptr(Box::new(IrType::Int(IntWidth::I32))))),
    );
    f.block_mut(f.entry).insts.push(Inst {
        id: slot_a,
        ty: IrType::Ptr(Box::new(IrType::Ptr(Box::new(IrType::Int(IntWidth::I32))))),
        span: span(),
        kind: InstKind::Alloca(IrType::Ptr(Box::new(IrType::Int(IntWidth::I32)))),
    });
    let slot_b = f.next_value_id();
    f.register_type(
        slot_b,
        IrType::Ptr(Box::new(IrType::Ptr(Box::new(IrType::Int(IntWidth::I32))))),
    );
    f.block_mut(f.entry).insts.push(Inst {
        id: slot_b,
        ty: IrType::Ptr(Box::new(IrType::Ptr(Box::new(IrType::Int(IntWidth::I32))))),
        span: span(),
        kind: InstKind::Alloca(IrType::Ptr(Box::new(IrType::Int(IntWidth::I32)))),
    });
    let store_a = f.next_value_id();
    f.register_type(store_a, IrType::Void);
    f.block_mut(f.entry).insts.push(Inst {
        id: store_a,
        ty: IrType::Void,
        span: span(),
        kind: InstKind::Store(ValueId(0), slot_a),
    });
    let store_b = f.next_value_id();
    f.register_type(store_b, IrType::Void);
    f.block_mut(f.entry).insts.push(Inst {
        id: store_b,
        ty: IrType::Void,
        span: span(),
        kind: InstKind::Store(ValueId(1), slot_b),
    });
    let load_a = f.next_value_id();
    f.register_type(load_a, IrType::Ptr(Box::new(IrType::Int(IntWidth::I32))));
    f.block_mut(f.entry).insts.push(Inst {
        id: load_a,
        ty: IrType::Ptr(Box::new(IrType::Int(IntWidth::I32))),
        span: span(),
        kind: InstKind::Load(slot_a),
    });
    let load_b = f.next_value_id();
    f.register_type(load_b, IrType::Ptr(Box::new(IrType::Int(IntWidth::I32))));
    f.block_mut(f.entry).insts.push(Inst {
        id: load_b,
        ty: IrType::Ptr(Box::new(IrType::Int(IntWidth::I32))),
        span: span(),
        kind: InstKind::Load(slot_b),
    });
    f.block_mut(f.entry).terminator = Some(Terminator::Return(None));

    assert_eq!(
        query(&f, load_a, load_b, TargetLayout::LP64),
        AliasResult::NoAlias
    );
}
