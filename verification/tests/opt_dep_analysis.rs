use armfortas::ids::IdSet;
use armfortas::ir::inst::{BlockId, BlockParam, Function, Inst, InstKind, Param, ValueId};
use armfortas::ir::types::{IntWidth, IrType};
use armfortas::lexer::{Position, Span};
use armfortas::opt::affine::AffineExpr;
use armfortas::opt::dep_analysis::{MemRef, fusion_legal, gcd, test_dependence};
use armfortas::target::TargetLayout;

fn dummy_span() -> Span {
    let pos = Position { line: 0, col: 0 };
    Span {
        file_id: 0,
        start: pos,
        end: pos,
    }
}

fn push_inst(func: &mut Function, block: BlockId, kind: InstKind, ty: IrType) -> ValueId {
    let id = func.next_value_id();
    func.register_type(id, ty.clone());
    func.block_mut(block).insts.push(Inst {
        id,
        kind,
        ty,
        span: dummy_span(),
    });
    id
}

#[test]
fn gcd_basic() {
    assert_eq!(gcd(12, 8), 4);
    assert_eq!(gcd(7, 3), 1);
    assert_eq!(gcd(0, 5), 5);
    assert_eq!(gcd(10, 0), 10);
}

#[test]
fn affine_add_sub() {
    let iv = ValueId(100);
    let a = AffineExpr {
        constant: 3,
        terms: vec![(2, iv)],
    };
    let b = AffineExpr {
        constant: 1,
        terms: vec![(1, iv)],
    };
    let sum = a.add(&b);
    assert_eq!(sum.constant, 4);
    assert_eq!(sum.terms.len(), 1);
    assert_eq!(sum.terms[0], (3, iv));

    let diff = a.sub(&b);
    assert_eq!(diff.constant, 2);
    assert_eq!(diff.terms.len(), 1);
    assert_eq!(diff.terms[0], (1, iv));
}

#[test]
fn affine_scale() {
    let iv = ValueId(100);
    let a = AffineExpr {
        constant: 2,
        terms: vec![(3, iv)],
    };
    let scaled = a.scale(4);
    assert_eq!(scaled.constant, 8);
    assert_eq!(scaled.terms[0], (12, iv));
}

#[test]
fn gcd_test_independent() {
    // a(2i+1) vs a(2i+2): diff = 2i+2 - (2i+1) = 1 (constant).
    // No IV terms in diff → dependent only if constant is 0.
    // constant = 1 ≠ 0 → independent.
    let iv = ValueId(100);
    let ref_a = MemRef {
        inst_id: ValueId(0),
        base: ValueId(50),
        subscript: AffineExpr {
            constant: 1,
            terms: vec![(2, iv)],
        },
        is_write: true,
    };
    let ref_b = MemRef {
        inst_id: ValueId(1),
        base: ValueId(50),
        subscript: AffineExpr {
            constant: 2,
            terms: vec![(2, iv)],
        },
        is_write: false,
    };
    let dep = test_dependence(&ref_a, &ref_b);
    assert!(!dep.dependent, "a(2i+1) and a(2i+2) should be independent");
}

#[test]
fn gcd_test_dependent() {
    // a(i) vs a(i): same subscript → always dependent.
    let iv = ValueId(100);
    let ref_a = MemRef {
        inst_id: ValueId(0),
        base: ValueId(50),
        subscript: AffineExpr {
            constant: 0,
            terms: vec![(1, iv)],
        },
        is_write: true,
    };
    let ref_b = MemRef {
        inst_id: ValueId(1),
        base: ValueId(50),
        subscript: AffineExpr {
            constant: 0,
            terms: vec![(1, iv)],
        },
        is_write: false,
    };
    let dep = test_dependence(&ref_a, &ref_b);
    assert!(dep.dependent, "a(i) and a(i) should be dependent");
}

#[test]
fn gcd_test_different_stride() {
    // a(3i) vs a(3i+1): diff has constant 1, gcd of coefficients = 0
    // (they cancel: 3-3=0). So diff = constant 1, no terms → independent.
    let iv = ValueId(100);
    let ref_a = MemRef {
        inst_id: ValueId(0),
        base: ValueId(50),
        subscript: AffineExpr {
            constant: 0,
            terms: vec![(3, iv)],
        },
        is_write: true,
    };
    let ref_b = MemRef {
        inst_id: ValueId(1),
        base: ValueId(50),
        subscript: AffineExpr {
            constant: 1,
            terms: vec![(3, iv)],
        },
        is_write: false,
    };
    let dep = test_dependence(&ref_a, &ref_b);
    assert!(
        !dep.dependent,
        "a(3i) and a(3i+1) should be independent by GCD test"
    );
}

#[test]
fn distinct_bases_independent() {
    let iv = ValueId(100);
    let ref_a = MemRef {
        inst_id: ValueId(0),
        base: ValueId(50),
        subscript: AffineExpr {
            constant: 0,
            terms: vec![(1, iv)],
        },
        is_write: true,
    };
    let ref_b = MemRef {
        inst_id: ValueId(1),
        base: ValueId(60), // different base
        subscript: AffineExpr {
            constant: 0,
            terms: vec![(1, iv)],
        },
        is_write: false,
    };
    let dep = test_dependence(&ref_a, &ref_b);
    assert!(
        !dep.dependent,
        "distinct bases should be independent (Fortran no-alias)"
    );
}

#[test]
fn fusion_rejects_cross_iteration_pointer_alias() {
    let ptr_ty = IrType::Ptr(Box::new(IrType::Int(IntWidth::I32)));
    let params = vec![
        Param {
            name: "first".into(),
            ty: ptr_ty.clone(),
            id: ValueId(0),
            fortran_noalias: false,
        },
        Param {
            name: "second".into(),
            ty: ptr_ty.clone(),
            id: ValueId(1),
            fortran_noalias: false,
        },
    ];
    let mut func = Function::new("pointer_loops".into(), params, IrType::Void);
    let entry = func.entry;
    let body_a = func.create_block("body_a");
    let body_b = func.create_block("body_b");

    let iv_a = func.next_value_id();
    func.register_type(iv_a, IrType::Int(IntWidth::I64));
    func.block_mut(body_a).params.push(BlockParam {
        id: iv_a,
        ty: IrType::Int(IntWidth::I64),
    });
    let iv_b = func.next_value_id();
    func.register_type(iv_b, IrType::Int(IntWidth::I64));
    func.block_mut(body_b).params.push(BlockParam {
        id: iv_b,
        ty: IrType::Int(IntWidth::I64),
    });

    let one = push_inst(
        &mut func,
        entry,
        InstKind::ConstInt(1, IntWidth::I64),
        IrType::Int(IntWidth::I64),
    );
    let value = push_inst(
        &mut func,
        entry,
        InstKind::ConstInt(7, IntWidth::I32),
        IrType::Int(IntWidth::I32),
    );
    let first_element = push_inst(
        &mut func,
        body_a,
        InstKind::GetElementPtr(ValueId(0), vec![iv_a]),
        ptr_ty.clone(),
    );
    push_inst(
        &mut func,
        body_a,
        InstKind::Store(value, first_element),
        IrType::Void,
    );

    let next = push_inst(
        &mut func,
        body_b,
        InstKind::IAdd(iv_b, one),
        IrType::Int(IntWidth::I64),
    );
    let second_element = push_inst(
        &mut func,
        body_b,
        InstKind::GetElementPtr(ValueId(1), vec![next]),
        ptr_ty,
    );
    push_inst(
        &mut func,
        body_b,
        InstKind::Load(second_element),
        IrType::Int(IntWidth::I32),
    );

    assert!(
        !fusion_legal(
            &func,
            &IdSet::from_list(&vec![body_a]),
            &IdSet::from_list(&vec![body_b]),
            iv_a,
            iv_b,
            TargetLayout::LP64,
        ),
        "distinct pointer descriptors may alias the same target"
    );

    for param in &mut func.params {
        param.fortran_noalias = true;
    }
    assert!(
        fusion_legal(
            &func,
            &IdSet::from_list(&vec![body_a]),
            &IdSet::from_list(&vec![body_b]),
            iv_a,
            iv_b,
            TargetLayout::LP64,
        ),
        "distinct ordinary array arguments should remain independent"
    );
}
