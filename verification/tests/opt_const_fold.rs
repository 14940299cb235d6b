use armfortas::ir::inst::{CmpOp, FuncRef, Function, Inst, InstKind, Module, Terminator, ValueId};
use armfortas::ir::types::{FloatWidth, FuncSig, IntWidth, IrType, TypeList};
use armfortas::lexer::{Position, Span};
use armfortas::opt::const_fold::ConstFold;
use armfortas::opt::floats::{FloatBin, FloatReply, FloatRequest, FloatUn};
use armfortas::opt::pass::Pass;
use armfortas::target::TargetLayout;

/// Answers floating-point questions with the arithmetic of the machine.
fn evaluate(q: FloatRequest) -> FloatReply {
    match q {
        FloatRequest::Binary(op, a, b) => {
            let (x, y) = (f64::from_bits(a), f64::from_bits(b));
            let r = match op {
                FloatBin::Add => x + y,
                FloatBin::Sub => x - y,
                FloatBin::Mul => x * y,
                FloatBin::Div => x / y,
                FloatBin::Pow => x.powf(y),
            };
            FloatReply::Bits(r.to_bits())
        }
        FloatRequest::Unary(op, a) => {
            let x = f64::from_bits(a);
            let r = match op {
                FloatUn::Neg => -x,
                FloatUn::Abs => x.abs(),
                FloatUn::Sqrt => x.sqrt(),
            };
            FloatReply::Bits(r.to_bits())
        }
        FloatRequest::Round(a) => {
            FloatReply::Bits(((f64::from_bits(a) as f32) as f64).to_bits())
        }
        FloatRequest::Compare(op, a, b) => {
            let (x, y) = (f64::from_bits(a), f64::from_bits(b));
            FloatReply::Truth(match op {
                CmpOp::Eq => x == y,
                CmpOp::Ne => x != y,
                CmpOp::Lt => x < y,
                CmpOp::Le => x <= y,
                CmpOp::Gt => x > y,
                CmpOp::Ge => x >= y,
            })
        }
        FloatRequest::FromInt(n, w) => FloatReply::Bits(match w {
            FloatWidth::F32 => ((n as f32) as f64).to_bits(),
            FloatWidth::F64 => (n as f64).to_bits(),
        }),
        FloatRequest::Truncate(a) => {
            let x = f64::from_bits(a);
            FloatReply::Whole(if x.is_finite() { Some(x.trunc() as i128) } else { None })
        }
    }
}

fn bits(v: f64) -> u64 {
    v.to_bits()
}

fn dummy_span() -> Span {
    let p = Position { line: 1, col: 1 };
    Span {
        start: p,
        end: p,
        file_id: 0,
    }
}

fn make_module_with(insts: Vec<(InstKind, IrType)>) -> (Module, Vec<ValueId>) {
    let mut m = Module::new("t".into(), TargetLayout::LP64);
    let mut f = Function::new("f".into(), vec![], IrType::Void);
    let entry = f.entry;
    let mut ids = Vec::new();
    for (kind, ty) in insts {
        let id = f.next_value_id();
        ids.push(id);
        f.block_mut(entry).insts.push(Inst {
            id,
            kind,
            ty,
            span: dummy_span(),
        });
    }
    f.block_mut(entry).terminator = Some(Terminator::Return(None));
    m.add_function(f);
    (m, ids)
}

fn first_block_kinds(m: &Module) -> Vec<InstKind> {
    m.functions[0].blocks[0]
        .insts
        .iter()
        .map(|i| i.kind.clone())
        .collect()
}

#[test]
fn folds_iadd_i32() {
    let (mut m, ids) = make_module_with(vec![
        (
            InstKind::ConstInt(3, IntWidth::I32),
            IrType::Int(IntWidth::I32),
        ),
        (
            InstKind::ConstInt(4, IntWidth::I32),
            IrType::Int(IntWidth::I32),
        ),
        (
            InstKind::IAdd(ValueId(0), ValueId(1)),
            IrType::Int(IntWidth::I32),
        ),
    ]);
    let _ = ids;
    assert!(ConstFold { floats: evaluate }.run(&mut m));
    let kinds = first_block_kinds(&m);
    assert!(matches!(kinds[2], InstKind::ConstInt(7, IntWidth::I32)));
}

#[test]
fn integer_overflow_wraps_at_width() {
    // i8: 100 + 50 = 150 → wraps to -106
    let (mut m, _) = make_module_with(vec![
        (
            InstKind::ConstInt(100, IntWidth::I8),
            IrType::Int(IntWidth::I8),
        ),
        (
            InstKind::ConstInt(50, IntWidth::I8),
            IrType::Int(IntWidth::I8),
        ),
        (
            InstKind::IAdd(ValueId(0), ValueId(1)),
            IrType::Int(IntWidth::I8),
        ),
    ]);
    assert!(ConstFold { floats: evaluate }.run(&mut m));
    let kinds = first_block_kinds(&m);
    match kinds[2] {
        InstKind::ConstInt(v, IntWidth::I8) => assert_eq!(v, -106),
        _ => panic!("expected ConstInt"),
    }
}

#[test]
fn idiv_by_zero_left_alone() {
    let (mut m, _) = make_module_with(vec![
        (
            InstKind::ConstInt(10, IntWidth::I32),
            IrType::Int(IntWidth::I32),
        ),
        (
            InstKind::ConstInt(0, IntWidth::I32),
            IrType::Int(IntWidth::I32),
        ),
        (
            InstKind::IDiv(ValueId(0), ValueId(1)),
            IrType::Int(IntWidth::I32),
        ),
    ]);
    assert!(!ConstFold { floats: evaluate }.run(&mut m));
    let kinds = first_block_kinds(&m);
    assert!(matches!(kinds[2], InstKind::IDiv(..)));
}

#[test]
fn fmul_f64() {
    let (mut m, _) = make_module_with(vec![
        (
            InstKind::ConstFloat(bits(2.0), FloatWidth::F64),
            IrType::Float(FloatWidth::F64),
        ),
        (
            InstKind::ConstFloat(bits(std::f64::consts::PI), FloatWidth::F64),
            IrType::Float(FloatWidth::F64),
        ),
        (
            InstKind::FMul(ValueId(0), ValueId(1)),
            IrType::Float(FloatWidth::F64),
        ),
    ]);
    assert!(ConstFold { floats: evaluate }.run(&mut m));
    let kinds = first_block_kinds(&m);
    match kinds[2] {
        InstKind::ConstFloat(v, FloatWidth::F64) => {
            let v = f64::from_bits(v);
            assert!((v - std::f64::consts::TAU).abs() < 1e-12)
        }
        _ => panic!("expected ConstFloat"),
    }
}

#[test]
fn leaves_rounding_dependent_fold_after_fpenv_change() {
    let (mut m, _) = make_module_with(vec![
        (
            InstKind::ConstFloat(bits(1.0), FloatWidth::F64),
            IrType::Float(FloatWidth::F64),
        ),
        (
            InstKind::ConstFloat(bits(5.551_115_123_125_783e-17), FloatWidth::F64),
            IrType::Float(FloatWidth::F64),
        ),
        (
            InstKind::ConstInt(2, IntWidth::I32),
            IrType::Int(IntWidth::I32),
        ),
        (
            InstKind::Call(
                FuncRef::External("afs_ieee_set_rounding".into()),
                vec![ValueId(2)],
            ),
            IrType::Void,
        ),
        (
            InstKind::FAdd(ValueId(0), ValueId(1)),
            IrType::Float(FloatWidth::F64),
        ),
    ]);

    assert!(
        !ConstFold { floats: evaluate }.run(&mut m),
        "constant FP arithmetic must remain dynamic when the function changes rounding mode"
    );
    assert!(matches!(first_block_kinds(&m)[4], InstKind::FAdd(..)));
}

#[test]
fn leaves_rounding_dependent_fold_in_called_function() {
    let (mut m, _) = make_module_with(vec![
        (
            InstKind::ConstFloat(bits(1.0), FloatWidth::F64),
            IrType::Float(FloatWidth::F64),
        ),
        (
            InstKind::ConstFloat(bits(5.551_115_123_125_783e-17), FloatWidth::F64),
            IrType::Float(FloatWidth::F64),
        ),
        (
            InstKind::FAdd(ValueId(0), ValueId(1)),
            IrType::Float(FloatWidth::F64),
        ),
    ]);
    let mut caller = Function::new("caller".into(), vec![], IrType::Void);
    let entry = caller.entry;
    for callee in [
        FuncRef::External("afs_ieee_set_rounding".into()),
        FuncRef::Internal(0),
    ] {
        let id = caller.next_value_id();
        caller.block_mut(entry).insts.push(Inst {
            id,
            kind: InstKind::Call(callee, vec![]),
            ty: IrType::Void,
            span: dummy_span(),
        });
    }
    caller.block_mut(entry).terminator = Some(Terminator::Return(None));
    m.add_function(caller);

    assert!(
        !ConstFold { floats: evaluate }.run(&mut m),
        "a callee can execute under the rounding mode selected by its caller"
    );
    assert!(matches!(
        m.functions[0].blocks[0].insts[2].kind,
        InstKind::FAdd(..)
    ));
}

#[test]
fn leaves_rounding_dependent_fold_in_indirect_target() {
    let (mut m, _) = make_module_with(vec![
        (
            InstKind::ConstFloat(bits(1.0), FloatWidth::F64),
            IrType::Float(FloatWidth::F64),
        ),
        (
            InstKind::ConstFloat(bits(5.551_115_123_125_783e-17), FloatWidth::F64),
            IrType::Float(FloatWidth::F64),
        ),
        (
            InstKind::FAdd(ValueId(0), ValueId(1)),
            IrType::Float(FloatWidth::F64),
        ),
    ]);
    let mut caller = Function::new("caller".into(), vec![], IrType::Void);
    let entry = caller.entry;
    let setter = caller.next_value_id();
    caller.block_mut(entry).insts.push(Inst {
        id: setter,
        kind: InstKind::Call(FuncRef::External("afs_ieee_set_rounding".into()), vec![]),
        ty: IrType::Void,
        span: dummy_span(),
    });
    let target_ty = IrType::FuncPtr(Box::new(FuncSig {
        params: TypeList::Nil,
        ret: IrType::Void,
    }));
    let target = caller.next_value_id();
    caller.block_mut(entry).insts.push(Inst {
        id: target,
        kind: InstKind::Undef(target_ty.clone()),
        ty: target_ty,
        span: dummy_span(),
    });
    let call = caller.next_value_id();
    caller.block_mut(entry).insts.push(Inst {
        id: call,
        kind: InstKind::Call(FuncRef::Indirect(target), vec![]),
        ty: IrType::Void,
        span: dummy_span(),
    });
    caller.block_mut(entry).terminator = Some(Terminator::Return(None));
    m.add_function(caller);

    assert!(
        !ConstFold { floats: evaluate }.run(&mut m),
        "an indirect call can enter a function under a changed rounding mode"
    );
    assert!(matches!(
        m.functions[0].blocks[0].insts[2].kind,
        InstKind::FAdd(..)
    ));
}

#[test]
fn icmp_eq_true() {
    let (mut m, _) = make_module_with(vec![
        (
            InstKind::ConstInt(5, IntWidth::I32),
            IrType::Int(IntWidth::I32),
        ),
        (
            InstKind::ConstInt(5, IntWidth::I32),
            IrType::Int(IntWidth::I32),
        ),
        (
            InstKind::ICmp(CmpOp::Eq, ValueId(0), ValueId(1)),
            IrType::Bool,
        ),
    ]);
    assert!(ConstFold { floats: evaluate }.run(&mut m));
    assert!(matches!(
        first_block_kinds(&m)[2],
        InstKind::ConstBool(true)
    ));
}

#[test]
fn icmp_signed_lt_with_i8_negatives() {
    // i8 representation: -1 stored as 0xff (255). Without sign-extension,
    // a naive (av < bv) would compare 255 < 1 → false; correct is true.
    let (mut m, _) = make_module_with(vec![
        (
            InstKind::ConstInt(-1, IntWidth::I8),
            IrType::Int(IntWidth::I8),
        ),
        (
            InstKind::ConstInt(1, IntWidth::I8),
            IrType::Int(IntWidth::I8),
        ),
        (
            InstKind::ICmp(CmpOp::Lt, ValueId(0), ValueId(1)),
            IrType::Bool,
        ),
    ]);
    assert!(ConstFold { floats: evaluate }.run(&mut m));
    assert!(matches!(
        first_block_kinds(&m)[2],
        InstKind::ConstBool(true)
    ));
}

#[test]
fn shl_power_of_two() {
    let (mut m, _) = make_module_with(vec![
        (
            InstKind::ConstInt(1, IntWidth::I32),
            IrType::Int(IntWidth::I32),
        ),
        (
            InstKind::ConstInt(3, IntWidth::I32),
            IrType::Int(IntWidth::I32),
        ),
        (
            InstKind::Shl(ValueId(0), ValueId(1)),
            IrType::Int(IntWidth::I32),
        ),
    ]);
    assert!(ConstFold { floats: evaluate }.run(&mut m));
    match first_block_kinds(&m)[2] {
        InstKind::ConstInt(v, IntWidth::I32) => assert_eq!(v, 8),
        _ => panic!(),
    }
}

#[test]
fn int_to_float_chain() {
    // const(42:i32) → int_to_float → const(42.0:f64)
    let (mut m, _) = make_module_with(vec![
        (
            InstKind::ConstInt(42, IntWidth::I32),
            IrType::Int(IntWidth::I32),
        ),
        (
            InstKind::IntToFloat(ValueId(0), FloatWidth::F64),
            IrType::Float(FloatWidth::F64),
        ),
    ]);
    assert!(ConstFold { floats: evaluate }.run(&mut m));
    match first_block_kinds(&m)[1] {
        InstKind::ConstFloat(v, FloatWidth::F64) => assert_eq!(f64::from_bits(v), 42.0),
        _ => panic!(),
    }
}

#[test]
fn select_on_known_cond_picks_branch() {
    let (mut m, _) = make_module_with(vec![
        (InstKind::ConstBool(true), IrType::Bool),
        (
            InstKind::ConstInt(10, IntWidth::I32),
            IrType::Int(IntWidth::I32),
        ),
        (
            InstKind::ConstInt(20, IntWidth::I32),
            IrType::Int(IntWidth::I32),
        ),
        (
            InstKind::Select(ValueId(0), ValueId(1), ValueId(2)),
            IrType::Int(IntWidth::I32),
        ),
    ]);
    assert!(ConstFold { floats: evaluate }.run(&mut m));
    match first_block_kinds(&m)[3] {
        InstKind::ConstInt(v, IntWidth::I32) => assert_eq!(v, 10),
        _ => panic!(),
    }
}

#[test]
fn fixpoint_via_chained_constants() {
    // (3 + 4) * 2 = 14, where the inner add must fold first.
    let (mut m, _) = make_module_with(vec![
        (
            InstKind::ConstInt(3, IntWidth::I32),
            IrType::Int(IntWidth::I32),
        ),
        (
            InstKind::ConstInt(4, IntWidth::I32),
            IrType::Int(IntWidth::I32),
        ),
        (
            InstKind::IAdd(ValueId(0), ValueId(1)),
            IrType::Int(IntWidth::I32),
        ),
        (
            InstKind::ConstInt(2, IntWidth::I32),
            IrType::Int(IntWidth::I32),
        ),
        (
            InstKind::IMul(ValueId(2), ValueId(3)),
            IrType::Int(IntWidth::I32),
        ),
    ]);
    // A single pass already handles this because we walk in order.
    assert!(ConstFold { floats: evaluate }.run(&mut m));
    let kinds = first_block_kinds(&m);
    assert!(matches!(kinds[2], InstKind::ConstInt(7, IntWidth::I32)));
    assert!(matches!(kinds[4], InstKind::ConstInt(14, IntWidth::I32)));
}

#[test]
fn nan_float_to_int_left_alone() {
    let (mut m, _) = make_module_with(vec![
        (
            InstKind::ConstFloat(bits(f64::NAN), FloatWidth::F64),
            IrType::Float(FloatWidth::F64),
        ),
        (
            InstKind::FloatToInt(ValueId(0), IntWidth::I32),
            IrType::Int(IntWidth::I32),
        ),
    ]);
    assert!(!ConstFold { floats: evaluate }.run(&mut m));
    assert!(matches!(first_block_kinds(&m)[1], InstKind::FloatToInt(..)));
}
