use armfortas::ir::inst::{CmpOp, Function, Inst, InstKind, Module, Param, Terminator, ValueId};
use armfortas::ir::types::{FloatWidth, IrType};
use armfortas::lexer::{Position, Span};
use armfortas::opt::fast_math::FastMathReassoc;
use armfortas::opt::floats::{FloatBin, FloatReply, FloatRequest, FloatUn};
use armfortas::opt::pass::Pass;
use armfortas::target::TargetLayout;

/// Answers floating-point questions with the arithmetic of the machine.
fn evaluate(q: FloatRequest) -> FloatReply {
    match q {
        FloatRequest::Binary(op, a, b) => {
            let (x, y) = (f64::from_bits(a), f64::from_bits(b));
            let r = match op {
                FloatBin::Add => x + y,
                FloatBin::Sub => x - y,
                FloatBin::Mul => x * y,
                FloatBin::Div => x / y,
                FloatBin::Pow => x.powf(y),
            };
            FloatReply::Bits(r.to_bits())
        }
        FloatRequest::Unary(op, a) => {
            let x = f64::from_bits(a);
            let r = match op {
                FloatUn::Neg => -x,
                FloatUn::Abs => x.abs(),
                FloatUn::Sqrt => x.sqrt(),
            };
            FloatReply::Bits(r.to_bits())
        }
        FloatRequest::Round(a) => {
            FloatReply::Bits(((f64::from_bits(a) as f32) as f64).to_bits())
        }
        FloatRequest::Compare(op, a, b) => {
            let (x, y) = (f64::from_bits(a), f64::from_bits(b));
            FloatReply::Truth(match op {
                CmpOp::Eq => x == y,
                CmpOp::Ne => x != y,
                CmpOp::Lt => x < y,
                CmpOp::Le => x <= y,
                CmpOp::Gt => x > y,
                CmpOp::Ge => x >= y,
            })
        }
        FloatRequest::FromInt(n, w) => FloatReply::Bits(match w {
            FloatWidth::F32 => ((n as f32) as f64).to_bits(),
            FloatWidth::F64 => (n as f64).to_bits(),
        }),
        FloatRequest::Truncate(a) => {
            let x = f64::from_bits(a);
            FloatReply::Whole(if x.is_finite() { Some(x.trunc() as i128) } else { None })
        }
    }
}

fn bits(v: f64) -> u64 {
    v.to_bits()
}

fn span() -> Span {
    let pos = Position { line: 0, col: 0 };
    Span { file_id: 0, start: pos, end: pos }
}

fn push(f: &mut Function, kind: InstKind, ty: IrType) -> ValueId {
    let id = f.next_value_id();
    let entry = f.entry;
    f.block_mut(entry).insts.push(Inst { id, kind, ty: ty.clone(), span: span() });
    f.register_type(id, ty);
    id
}

#[test]
fn collapses_nested_float_constant_chain() {
    let mut module = Module::new("t".into(), TargetLayout::LP64);
    let params = vec![Param {
        name: "x".into(),
        ty: IrType::Float(FloatWidth::F64),
        id: ValueId(0),
        fortran_noalias: false,
    }];
    let mut func = Function::new("f".into(), params, IrType::Float(FloatWidth::F64));
    let c1 = push(
        &mut func,
        InstKind::ConstFloat(bits(2.0), FloatWidth::F64),
        IrType::Float(FloatWidth::F64),
    );
    let c2 = push(
        &mut func,
        InstKind::ConstFloat(bits(3.0), FloatWidth::F64),
        IrType::Float(FloatWidth::F64),
    );
    let add1 = push(
        &mut func,
        InstKind::FAdd(ValueId(0), c1),
        IrType::Float(FloatWidth::F64),
    );
    let add2 = push(
        &mut func,
        InstKind::FAdd(add1, c2),
        IrType::Float(FloatWidth::F64),
    );
    let entry = func.entry;
    func.block_mut(entry).terminator = Some(Terminator::Return(Some(add2)));
    module.add_function(func);

    assert!(FastMathReassoc { floats: evaluate }.run(&mut module));
    let func = &module.functions[0];
    let insts = &func.blocks[0].insts;
    assert!(
        insts.iter().any(|inst| matches!(inst.kind, InstKind::ConstFloat(v, FloatWidth::F64) if f64::from_bits(v) == 5.0)),
        "reassociated chain should materialize a combined constant:\n{:?}",
        insts
    );
    assert!(
        matches!(func.blocks[0].terminator, Some(Terminator::Return(Some(v))) if v == add2),
        "outer value should stay the return root"
    );
    let outer = insts.iter().find(|inst| inst.id == add2).expect("outer add should remain");
    assert!(
        matches!(outer.kind, InstKind::FAdd(ValueId(0), _)),
        "outer add should become x + const, got {:?}",
        outer.kind
    );
}

#[test]
fn cancels_rounding_sensitive_add_sub_chain_to_base() {
    let mut module = Module::new("t".into(), TargetLayout::LP64);
    let params = vec![Param {
        name: "x".into(),
        ty: IrType::Float(FloatWidth::F64),
        id: ValueId(0),
        fortran_noalias: false,
    }];
    let mut func = Function::new("f".into(), params, IrType::Float(FloatWidth::F64));
    let big = push(
        &mut func,
        InstKind::ConstFloat(bits(1.0e16), FloatWidth::F64),
        IrType::Float(FloatWidth::F64),
    );
    let add = push(
        &mut func,
        InstKind::FAdd(ValueId(0), big),
        IrType::Float(FloatWidth::F64),
    );
    let sub = push(
        &mut func,
        InstKind::FSub(add, big),
        IrType::Float(FloatWidth::F64),
    );
    let entry = func.entry;
    func.block_mut(entry).terminator = Some(Terminator::Return(Some(sub)));
    module.add_function(func);

    assert!(FastMathReassoc { floats: evaluate }.run(&mut module));
    let func = &module.functions[0];
    assert!(
        matches!(func.blocks[0].terminator, Some(Terminator::Return(Some(v))) if v == ValueId(0)),
        "cancelled chain should return the original base directly"
    );
    assert!(
        !func.blocks[0].insts.iter().any(|inst| inst.id == sub),
        "cancelled outer subtraction should be removed"
    );
}

#[test]
fn preserves_small_constant_when_large_terms_cancel_under_ofast() {
    let mut module = Module::new("t".into(), TargetLayout::LP64);
    let params = vec![Param {
        name: "x".into(),
        ty: IrType::Float(FloatWidth::F64),
        id: ValueId(0),
        fortran_noalias: false,
    }];
    let mut func = Function::new("f".into(), params, IrType::Float(FloatWidth::F64));
    let one = push(
        &mut func,
        InstKind::ConstFloat(bits(1.0), FloatWidth::F64),
        IrType::Float(FloatWidth::F64),
    );
    let big = push(
        &mut func,
        InstKind::ConstFloat(bits(1.0e16), FloatWidth::F64),
        IrType::Float(FloatWidth::F64),
    );
    let add_small = push(
        &mut func,
        InstKind::FAdd(ValueId(0), one),
        IrType::Float(FloatWidth::F64),
    );
    let add_big = push(
        &mut func,
        InstKind::FAdd(add_small, big),
        IrType::Float(FloatWidth::F64),
    );
    let sub_big = push(
        &mut func,
        InstKind::FSub(add_big, big),
        IrType::Float(FloatWidth::F64),
    );
    let entry = func.entry;
    func.block_mut(entry).terminator = Some(Terminator::Return(Some(sub_big)));
    module.add_function(func);

    assert!(FastMathReassoc { floats: evaluate }.run(&mut module));
    let func = &module.functions[0];
    let outer = func.blocks[0]
        .insts
        .iter()
        .find(|inst| inst.id == sub_big)
        .expect("outer value should remain after reassociation");
    let const_id = match outer.kind {
        InstKind::FAdd(ValueId(0), const_id) => const_id,
        ref other => panic!("expected x + const after reassociation, got {:?}", other),
    };
    let const_inst = func.blocks[0]
        .insts
        .iter()
        .find(|inst| inst.id == const_id)
        .expect("combined constant should be materialized");
    assert!(
        matches!(const_inst.kind, InstKind::ConstFloat(v, FloatWidth::F64) if f64::from_bits(v) == 1.0),
        "large cancelling terms should preserve the remaining +1 constant, got {:?}",
        const_inst.kind
    );
}
