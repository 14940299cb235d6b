use armfortas::ir::inst::{CmpOp, FuncRef, Function, Inst, InstKind, Module, Param, Terminator, ValueId};
use armfortas::ir::types::{FloatWidth, IntWidth, IrType};
use armfortas::lexer::{Position, Span};
use armfortas::opt::const_arg::ConstArgSpecialize;
use armfortas::opt::dead_arg::DeadArgElim;
use armfortas::opt::floats::{FloatBin, FloatReply, FloatRequest, FloatUn};
use armfortas::opt::pass::Pass;
use armfortas::target::TargetLayout;

/// Answers floating-point questions with the arithmetic of the machine.
fn evaluate(q: FloatRequest) -> FloatReply {
    match q {
        FloatRequest::Binary(op, a, b) => {
            let (x, y) = (f64::from_bits(a), f64::from_bits(b));
            let r = match op {
                FloatBin::Add => x + y,
                FloatBin::Sub => x - y,
                FloatBin::Mul => x * y,
                FloatBin::Div => x / y,
                FloatBin::Pow => x.powf(y),
            };
            FloatReply::Bits(r.to_bits())
        }
        FloatRequest::Unary(op, a) => {
            let x = f64::from_bits(a);
            let r = match op {
                FloatUn::Neg => -x,
                FloatUn::Abs => x.abs(),
                FloatUn::Sqrt => x.sqrt(),
            };
            FloatReply::Bits(r.to_bits())
        }
        FloatRequest::Round(a) => {
            FloatReply::Bits(((f64::from_bits(a) as f32) as f64).to_bits())
        }
        FloatRequest::Compare(op, a, b) => {
            let (x, y) = (f64::from_bits(a), f64::from_bits(b));
            FloatReply::Truth(match op {
                CmpOp::Eq => x == y,
                CmpOp::Ne => x != y,
                CmpOp::Lt => x < y,
                CmpOp::Le => x <= y,
                CmpOp::Gt => x > y,
                CmpOp::Ge => x >= y,
            })
        }
        FloatRequest::FromInt(n, w) => FloatReply::Bits(match w {
            FloatWidth::F32 => ((n as f32) as f64).to_bits(),
            FloatWidth::F64 => (n as f64).to_bits(),
        }),
        FloatRequest::Truncate(a) => {
            let x = f64::from_bits(a);
            FloatReply::Whole(if x.is_finite() { Some(x.trunc() as i128) } else { None })
        }
    }
}

fn span() -> Span {
    let pos = Position { line: 0, col: 0 };
    Span {
        file_id: 0,
        start: pos,
        end: pos,
    }
}

fn push(f: &mut Function, kind: InstKind, ty: IrType) -> ValueId {
    let id = f.next_value_id();
    let entry = f.entry;
    f.block_mut(entry).insts.push(Inst {
        id,
        kind,
        ty: ty.clone(),
        span: span(),
    });
    f.register_type(id, ty);
    id
}

#[test]
fn specializes_by_value_constant_dummy_and_enables_arg_elision() {
    let mut module = Module::new("t".into(), TargetLayout::LP64);

    let params = vec![
        Param {
            name: "x".into(),
            ty: IrType::Int(IntWidth::I32),
            id: ValueId(0),
            fortran_noalias: false,
        },
        Param {
            name: "step".into(),
            ty: IrType::Int(IntWidth::I32),
            id: ValueId(1),
            fortran_noalias: false,
        },
    ];
    let mut callee = Function::new("helper".into(), params, IrType::Int(IntWidth::I32));
    callee.internal_only = true;
    let sum = push(
        &mut callee,
        InstKind::IAdd(ValueId(0), ValueId(1)),
        IrType::Int(IntWidth::I32),
    );
    let callee_entry = callee.entry;
    callee.block_mut(callee_entry).terminator = Some(Terminator::Return(Some(sum)));
    module.add_function(callee);

    let mut caller = Function::new("main".into(), vec![], IrType::Int(IntWidth::I32));
    let x1 = push(
        &mut caller,
        InstKind::ConstInt(7, IntWidth::I32),
        IrType::Int(IntWidth::I32),
    );
    let step1 = push(
        &mut caller,
        InstKind::ConstInt(3, IntWidth::I32),
        IrType::Int(IntWidth::I32),
    );
    let c1 = push(
        &mut caller,
        InstKind::Call(FuncRef::Internal(0), vec![x1, step1]),
        IrType::Int(IntWidth::I32),
    );
    let x2 = push(
        &mut caller,
        InstKind::ConstInt(9, IntWidth::I32),
        IrType::Int(IntWidth::I32),
    );
    let step2 = push(
        &mut caller,
        InstKind::ConstInt(3, IntWidth::I32),
        IrType::Int(IntWidth::I32),
    );
    let c2 = push(
        &mut caller,
        InstKind::Call(FuncRef::Internal(0), vec![x2, step2]),
        IrType::Int(IntWidth::I32),
    );
    let total = push(
        &mut caller,
        InstKind::IAdd(c1, c2),
        IrType::Int(IntWidth::I32),
    );
    let caller_entry = caller.entry;
    caller.block_mut(caller_entry).terminator = Some(Terminator::Return(Some(total)));
    module.add_function(caller);

    assert!(ConstArgSpecialize { floats: evaluate }.run(&mut module));
    assert!(DeadArgElim.run(&mut module));

    assert_eq!(
        module.functions[0].params.len(),
        1,
        "specialized helper should drop constant dummy"
    );
    let call_args_1 = match &module.functions[1].blocks[0].insts[2].kind {
        InstKind::Call(FuncRef::Internal(0), args) => args,
        other => panic!("expected call, got {:?}", other),
    };
    assert_eq!(
        call_args_1.len(),
        1,
        "call site should drop specialized constant arg"
    );
}

#[test]
fn does_not_specialize_when_callsite_constants_disagree() {
    let mut module = Module::new("t".into(), TargetLayout::LP64);

    let params = vec![
        Param {
            name: "x".into(),
            ty: IrType::Int(IntWidth::I32),
            id: ValueId(0),
            fortran_noalias: false,
        },
        Param {
            name: "step".into(),
            ty: IrType::Int(IntWidth::I32),
            id: ValueId(1),
            fortran_noalias: false,
        },
    ];
    let mut callee = Function::new("helper".into(), params, IrType::Int(IntWidth::I32));
    callee.internal_only = true;
    let sum = push(
        &mut callee,
        InstKind::IAdd(ValueId(0), ValueId(1)),
        IrType::Int(IntWidth::I32),
    );
    let callee_entry = callee.entry;
    callee.block_mut(callee_entry).terminator = Some(Terminator::Return(Some(sum)));
    module.add_function(callee);

    let mut caller = Function::new("main".into(), vec![], IrType::Int(IntWidth::I32));
    let x1 = push(
        &mut caller,
        InstKind::ConstInt(7, IntWidth::I32),
        IrType::Int(IntWidth::I32),
    );
    let step1 = push(
        &mut caller,
        InstKind::ConstInt(3, IntWidth::I32),
        IrType::Int(IntWidth::I32),
    );
    let _ = push(
        &mut caller,
        InstKind::Call(FuncRef::Internal(0), vec![x1, step1]),
        IrType::Int(IntWidth::I32),
    );
    let x2 = push(
        &mut caller,
        InstKind::ConstInt(9, IntWidth::I32),
        IrType::Int(IntWidth::I32),
    );
    let step2 = push(
        &mut caller,
        InstKind::ConstInt(4, IntWidth::I32),
        IrType::Int(IntWidth::I32),
    );
    let call = push(
        &mut caller,
        InstKind::Call(FuncRef::Internal(0), vec![x2, step2]),
        IrType::Int(IntWidth::I32),
    );
    let caller_entry = caller.entry;
    caller.block_mut(caller_entry).terminator = Some(Terminator::Return(Some(call)));
    module.add_function(caller);

    assert!(!ConstArgSpecialize { floats: evaluate }.run(&mut module));
    assert_eq!(module.functions[0].params.len(), 2);
}
