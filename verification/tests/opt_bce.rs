use armfortas::ir::inst::{BlockParam, CmpOp, Function, Inst, InstKind, Module, RuntimeFunc, Terminator};
use armfortas::ir::types::{IntWidth, IrType};
use armfortas::lexer::{Position, Span};
use armfortas::opt::bce::{Bce, loop_index_base_and_offset, resolve_int_scalar};
use armfortas::opt::pass::Pass;
use armfortas::target::TargetLayout;

#[test]
fn bce_no_op_without_bounds_checks() {
    let mut m = Module::new("test".into(), TargetLayout::LP64);
    let mut f = Function::new("test".into(), vec![], IrType::Void);
    f.block_mut(f.entry).terminator = Some(Terminator::Return(None));
    m.add_function(f);
    let pass = Bce;
    assert!(!pass.run(&mut m), "no CheckBounds → no elimination");
}

#[test]
fn bce_removes_constant_in_bounds() {
    let mut m = Module::new("test".into(), TargetLayout::LP64);
    let mut f = Function::new("test".into(), vec![], IrType::Void);
    let span = Span {
        file_id: 0,
        start: Position { line: 0, col: 0 },
        end: Position { line: 0, col: 0 },
    };

    // index = 3, lower = 1, upper = 10 → safe
    let idx = f.next_value_id();
    f.register_type(idx, IrType::Int(IntWidth::I32));
    f.block_mut(f.entry).insts.push(Inst {
        id: idx,
        ty: IrType::Int(IntWidth::I32),
        span,
        kind: InstKind::ConstInt(3, IntWidth::I32),
    });
    let lo = f.next_value_id();
    f.register_type(lo, IrType::Int(IntWidth::I32));
    f.block_mut(f.entry).insts.push(Inst {
        id: lo,
        ty: IrType::Int(IntWidth::I32),
        span,
        kind: InstKind::ConstInt(1, IntWidth::I32),
    });
    let hi = f.next_value_id();
    f.register_type(hi, IrType::Int(IntWidth::I32));
    f.block_mut(f.entry).insts.push(Inst {
        id: hi,
        ty: IrType::Int(IntWidth::I32),
        span,
        kind: InstKind::ConstInt(10, IntWidth::I32),
    });
    let check = f.next_value_id();
    f.register_type(check, IrType::Void);
    f.block_mut(f.entry).insts.push(Inst {
        id: check,
        ty: IrType::Void,
        span,
        kind: InstKind::RuntimeCall(RuntimeFunc::CheckBounds, vec![idx, lo, hi]),
    });
    f.block_mut(f.entry).terminator = Some(Terminator::Return(None));
    m.add_function(f);

    let pass = Bce;
    let changed = pass.run(&mut m);
    assert!(changed, "constant 3 in [1,10] should be eliminated");

    // Verify the CheckBounds call was removed.
    let has_check = m.functions[0].blocks[0]
        .insts
        .iter()
        .any(|i| matches!(i.kind, InstKind::RuntimeCall(RuntimeFunc::CheckBounds, _)));
    assert!(!has_check, "CheckBounds should be removed");
}

#[test]
fn bce_keeps_narrowed_constant_out_of_bounds() {
    let mut m = Module::new("test".into(), TargetLayout::LP64);
    let mut f = Function::new("test".into(), vec![], IrType::Void);
    let span = Span {
        file_id: 0,
        start: Position { line: 0, col: 0 },
        end: Position { line: 0, col: 0 },
    };

    let wide = f.next_value_id();
    f.register_type(wide, IrType::Int(IntWidth::I32));
    f.block_mut(f.entry).insts.push(Inst {
        id: wide,
        ty: IrType::Int(IntWidth::I32),
        span,
        kind: InstKind::ConstInt(129, IntWidth::I32),
    });
    let narrow = f.next_value_id();
    f.register_type(narrow, IrType::Int(IntWidth::I8));
    f.block_mut(f.entry).insts.push(Inst {
        id: narrow,
        ty: IrType::Int(IntWidth::I8),
        span,
        kind: InstKind::IntTrunc(wide, IntWidth::I8),
    });
    let index = f.next_value_id();
    f.register_type(index, IrType::Int(IntWidth::I64));
    f.block_mut(f.entry).insts.push(Inst {
        id: index,
        ty: IrType::Int(IntWidth::I64),
        span,
        kind: InstKind::IntExtend(narrow, IntWidth::I64, true),
    });
    let lo = f.next_value_id();
    f.register_type(lo, IrType::Int(IntWidth::I64));
    f.block_mut(f.entry).insts.push(Inst {
        id: lo,
        ty: IrType::Int(IntWidth::I64),
        span,
        kind: InstKind::ConstInt(1, IntWidth::I64),
    });
    let hi = f.next_value_id();
    f.register_type(hi, IrType::Int(IntWidth::I64));
    f.block_mut(f.entry).insts.push(Inst {
        id: hi,
        ty: IrType::Int(IntWidth::I64),
        span,
        kind: InstKind::ConstInt(200, IntWidth::I64),
    });
    let check = f.next_value_id();
    f.register_type(check, IrType::Void);
    f.block_mut(f.entry).insts.push(Inst {
        id: check,
        ty: IrType::Void,
        span,
        kind: InstKind::RuntimeCall(RuntimeFunc::CheckBounds, vec![index, lo, hi]),
    });
    f.block_mut(f.entry).terminator = Some(Terminator::Return(None));
    assert_eq!(
        resolve_int_scalar(&f, narrow),
        Some(-127),
        "constant truncation must use the destination width"
    );
    m.add_function(f);

    let pass = Bce;
    assert!(
        !pass.run(&mut m),
        "narrowing 129 to i8 produces -127, so the bounds check must remain"
    );
}

#[test]
fn bce_removes_canonical_loop_iv_check() {
    let mut m = Module::new("test".into(), TargetLayout::LP64);
    let mut f = Function::new("test".into(), vec![], IrType::Void);
    let span = Span {
        file_id: 0,
        start: Position { line: 0, col: 0 },
        end: Position { line: 0, col: 0 },
    };

    let header = f.create_block("header");
    let body = f.create_block("body");
    let exit = f.create_block("exit");

    let init = f.next_value_id();
    f.register_type(init, IrType::Int(IntWidth::I32));
    f.block_mut(f.entry).insts.push(Inst {
        id: init,
        ty: IrType::Int(IntWidth::I32),
        span,
        kind: InstKind::ConstInt(1, IntWidth::I32),
    });
    let zero = f.next_value_id();
    f.register_type(zero, IrType::Int(IntWidth::I32));
    f.block_mut(f.entry).insts.push(Inst {
        id: zero,
        ty: IrType::Int(IntWidth::I32),
        span,
        kind: InstKind::ConstInt(0, IntWidth::I32),
    });
    f.block_mut(f.entry).terminator = Some(Terminator::Branch(header, vec![init, zero]));

    let iv = f.next_value_id();
    f.register_type(iv, IrType::Int(IntWidth::I32));
    let sum = f.next_value_id();
    f.register_type(sum, IrType::Int(IntWidth::I32));
    f.block_mut(header).params.push(BlockParam {
        id: iv,
        ty: IrType::Int(IntWidth::I32),
    });
    f.block_mut(header).params.push(BlockParam {
        id: sum,
        ty: IrType::Int(IntWidth::I32),
    });

    let bound = f.next_value_id();
    f.register_type(bound, IrType::Int(IntWidth::I32));
    f.block_mut(header).insts.push(Inst {
        id: bound,
        ty: IrType::Int(IntWidth::I32),
        span,
        kind: InstKind::ConstInt(4, IntWidth::I32),
    });
    let cond = f.next_value_id();
    f.register_type(cond, IrType::Bool);
    f.block_mut(header).insts.push(Inst {
        id: cond,
        ty: IrType::Bool,
        span,
        kind: InstKind::ICmp(CmpOp::Le, iv, bound),
    });
    f.block_mut(header).terminator = Some(Terminator::CondBranch {
        cond,
        true_dest: body,
        true_args: vec![],
        false_dest: exit,
        false_args: vec![],
    });

    let iv64 = f.next_value_id();
    f.register_type(iv64, IrType::Int(IntWidth::I64));
    f.block_mut(body).insts.push(Inst {
        id: iv64,
        ty: IrType::Int(IntWidth::I64),
        span,
        kind: InstKind::IntExtend(iv, IntWidth::I64, true),
    });
    let lo = f.next_value_id();
    f.register_type(lo, IrType::Int(IntWidth::I64));
    f.block_mut(body).insts.push(Inst {
        id: lo,
        ty: IrType::Int(IntWidth::I64),
        span,
        kind: InstKind::ConstInt(1, IntWidth::I64),
    });
    let hi = f.next_value_id();
    f.register_type(hi, IrType::Int(IntWidth::I64));
    f.block_mut(body).insts.push(Inst {
        id: hi,
        ty: IrType::Int(IntWidth::I64),
        span,
        kind: InstKind::ConstInt(4, IntWidth::I64),
    });
    let check = f.next_value_id();
    f.register_type(check, IrType::Void);
    f.block_mut(body).insts.push(Inst {
        id: check,
        ty: IrType::Void,
        span,
        kind: InstKind::RuntimeCall(RuntimeFunc::CheckBounds, vec![iv64, lo, hi]),
    });
    let step = f.next_value_id();
    f.register_type(step, IrType::Int(IntWidth::I32));
    f.block_mut(body).insts.push(Inst {
        id: step,
        ty: IrType::Int(IntWidth::I32),
        span,
        kind: InstKind::ConstInt(1, IntWidth::I32),
    });
    let next_iv = f.next_value_id();
    f.register_type(next_iv, IrType::Int(IntWidth::I32));
    f.block_mut(body).insts.push(Inst {
        id: next_iv,
        ty: IrType::Int(IntWidth::I32),
        span,
        kind: InstKind::IAdd(iv, step),
    });
    let next_sum = f.next_value_id();
    f.register_type(next_sum, IrType::Int(IntWidth::I32));
    f.block_mut(body).insts.push(Inst {
        id: next_sum,
        ty: IrType::Int(IntWidth::I32),
        span,
        kind: InstKind::IAdd(sum, step),
    });
    f.block_mut(body).terminator = Some(Terminator::Branch(header, vec![next_iv, next_sum]));
    f.block_mut(exit).terminator = Some(Terminator::Return(None));
    m.add_function(f);

    let pass = Bce;
    assert!(
        pass.run(&mut m),
        "canonical counted-loop bounds check should be removed"
    );
    let has_check = m.functions[0].block(body).insts.iter().any(|inst| {
        matches!(
            inst.kind,
            InstKind::RuntimeCall(RuntimeFunc::CheckBounds, _)
        )
    });
    assert!(!has_check, "loop body should no longer contain CheckBounds");
}

#[test]
fn bce_keeps_loop_check_when_bounds_are_tighter_than_trip_range() {
    let mut m = Module::new("test".into(), TargetLayout::LP64);
    let mut f = Function::new("test".into(), vec![], IrType::Void);
    let span = Span {
        file_id: 0,
        start: Position { line: 0, col: 0 },
        end: Position { line: 0, col: 0 },
    };

    let header = f.create_block("header");
    let body = f.create_block("body");
    let exit = f.create_block("exit");

    let init = f.next_value_id();
    f.register_type(init, IrType::Int(IntWidth::I32));
    f.block_mut(f.entry).insts.push(Inst {
        id: init,
        ty: IrType::Int(IntWidth::I32),
        span,
        kind: InstKind::ConstInt(1, IntWidth::I32),
    });
    let zero = f.next_value_id();
    f.register_type(zero, IrType::Int(IntWidth::I32));
    f.block_mut(f.entry).insts.push(Inst {
        id: zero,
        ty: IrType::Int(IntWidth::I32),
        span,
        kind: InstKind::ConstInt(0, IntWidth::I32),
    });
    f.block_mut(f.entry).terminator = Some(Terminator::Branch(header, vec![init, zero]));

    let iv = f.next_value_id();
    f.register_type(iv, IrType::Int(IntWidth::I32));
    let sum = f.next_value_id();
    f.register_type(sum, IrType::Int(IntWidth::I32));
    f.block_mut(header).params.push(BlockParam {
        id: iv,
        ty: IrType::Int(IntWidth::I32),
    });
    f.block_mut(header).params.push(BlockParam {
        id: sum,
        ty: IrType::Int(IntWidth::I32),
    });

    let bound = f.next_value_id();
    f.register_type(bound, IrType::Int(IntWidth::I32));
    f.block_mut(header).insts.push(Inst {
        id: bound,
        ty: IrType::Int(IntWidth::I32),
        span,
        kind: InstKind::ConstInt(4, IntWidth::I32),
    });
    let cond = f.next_value_id();
    f.register_type(cond, IrType::Bool);
    f.block_mut(header).insts.push(Inst {
        id: cond,
        ty: IrType::Bool,
        span,
        kind: InstKind::ICmp(CmpOp::Le, iv, bound),
    });
    f.block_mut(header).terminator = Some(Terminator::CondBranch {
        cond,
        true_dest: body,
        true_args: vec![],
        false_dest: exit,
        false_args: vec![],
    });

    let iv64 = f.next_value_id();
    f.register_type(iv64, IrType::Int(IntWidth::I64));
    f.block_mut(body).insts.push(Inst {
        id: iv64,
        ty: IrType::Int(IntWidth::I64),
        span,
        kind: InstKind::IntExtend(iv, IntWidth::I64, true),
    });
    let lo = f.next_value_id();
    f.register_type(lo, IrType::Int(IntWidth::I64));
    f.block_mut(body).insts.push(Inst {
        id: lo,
        ty: IrType::Int(IntWidth::I64),
        span,
        kind: InstKind::ConstInt(1, IntWidth::I64),
    });
    let hi = f.next_value_id();
    f.register_type(hi, IrType::Int(IntWidth::I64));
    f.block_mut(body).insts.push(Inst {
        id: hi,
        ty: IrType::Int(IntWidth::I64),
        span,
        kind: InstKind::ConstInt(3, IntWidth::I64),
    });
    let check = f.next_value_id();
    f.register_type(check, IrType::Void);
    f.block_mut(body).insts.push(Inst {
        id: check,
        ty: IrType::Void,
        span,
        kind: InstKind::RuntimeCall(RuntimeFunc::CheckBounds, vec![iv64, lo, hi]),
    });
    let step = f.next_value_id();
    f.register_type(step, IrType::Int(IntWidth::I32));
    f.block_mut(body).insts.push(Inst {
        id: step,
        ty: IrType::Int(IntWidth::I32),
        span,
        kind: InstKind::ConstInt(1, IntWidth::I32),
    });
    let next_iv = f.next_value_id();
    f.register_type(next_iv, IrType::Int(IntWidth::I32));
    f.block_mut(body).insts.push(Inst {
        id: next_iv,
        ty: IrType::Int(IntWidth::I32),
        span,
        kind: InstKind::IAdd(iv, step),
    });
    let next_sum = f.next_value_id();
    f.register_type(next_sum, IrType::Int(IntWidth::I32));
    f.block_mut(body).insts.push(Inst {
        id: next_sum,
        ty: IrType::Int(IntWidth::I32),
        span,
        kind: InstKind::IAdd(sum, step),
    });
    f.block_mut(body).terminator = Some(Terminator::Branch(header, vec![next_iv, next_sum]));
    f.block_mut(exit).terminator = Some(Terminator::Return(None));
    m.add_function(f);

    let pass = Bce;
    assert!(
        !pass.run(&mut m),
        "loop trip range 1..4 exceeds checked upper bound 3, so CheckBounds must remain"
    );
}

#[test]
fn bce_removes_loop_iv_plus_constant_check() {
    let mut m = Module::new("test".into(), TargetLayout::LP64);
    let mut f = Function::new("test".into(), vec![], IrType::Void);
    let span = Span {
        file_id: 0,
        start: Position { line: 0, col: 0 },
        end: Position { line: 0, col: 0 },
    };

    let header = f.create_block("header");
    let body = f.create_block("body");
    let exit = f.create_block("exit");

    let init = f.next_value_id();
    f.register_type(init, IrType::Int(IntWidth::I32));
    f.block_mut(f.entry).insts.push(Inst {
        id: init,
        ty: IrType::Int(IntWidth::I32),
        span,
        kind: InstKind::ConstInt(2, IntWidth::I32),
    });
    f.block_mut(f.entry).terminator = Some(Terminator::Branch(header, vec![init]));

    let iv = f.next_value_id();
    f.register_type(iv, IrType::Int(IntWidth::I32));
    f.block_mut(header).params.push(BlockParam {
        id: iv,
        ty: IrType::Int(IntWidth::I32),
    });

    let bound = f.next_value_id();
    f.register_type(bound, IrType::Int(IntWidth::I32));
    f.block_mut(header).insts.push(Inst {
        id: bound,
        ty: IrType::Int(IntWidth::I32),
        span,
        kind: InstKind::ConstInt(7, IntWidth::I32),
    });
    let cond = f.next_value_id();
    f.register_type(cond, IrType::Bool);
    f.block_mut(header).insts.push(Inst {
        id: cond,
        ty: IrType::Bool,
        span,
        kind: InstKind::ICmp(CmpOp::Le, iv, bound),
    });
    f.block_mut(header).terminator = Some(Terminator::CondBranch {
        cond,
        true_dest: body,
        true_args: vec![],
        false_dest: exit,
        false_args: vec![],
    });

    let one = f.next_value_id();
    f.register_type(one, IrType::Int(IntWidth::I32));
    f.block_mut(body).insts.push(Inst {
        id: one,
        ty: IrType::Int(IntWidth::I32),
        span,
        kind: InstKind::ConstInt(1, IntWidth::I32),
    });
    let plus = f.next_value_id();
    f.register_type(plus, IrType::Int(IntWidth::I32));
    f.block_mut(body).insts.push(Inst {
        id: plus,
        ty: IrType::Int(IntWidth::I32),
        span,
        kind: InstKind::IAdd(iv, one),
    });
    let plus64 = f.next_value_id();
    f.register_type(plus64, IrType::Int(IntWidth::I64));
    f.block_mut(body).insts.push(Inst {
        id: plus64,
        ty: IrType::Int(IntWidth::I64),
        span,
        kind: InstKind::IntExtend(plus, IntWidth::I64, true),
    });
    let lo = f.next_value_id();
    f.register_type(lo, IrType::Int(IntWidth::I64));
    f.block_mut(body).insts.push(Inst {
        id: lo,
        ty: IrType::Int(IntWidth::I64),
        span,
        kind: InstKind::ConstInt(1, IntWidth::I64),
    });
    let hi = f.next_value_id();
    f.register_type(hi, IrType::Int(IntWidth::I64));
    f.block_mut(body).insts.push(Inst {
        id: hi,
        ty: IrType::Int(IntWidth::I64),
        span,
        kind: InstKind::ConstInt(8, IntWidth::I64),
    });
    let check = f.next_value_id();
    f.register_type(check, IrType::Void);
    f.block_mut(body).insts.push(Inst {
        id: check,
        ty: IrType::Void,
        span,
        kind: InstKind::RuntimeCall(RuntimeFunc::CheckBounds, vec![plus64, lo, hi]),
    });
    let next_iv = f.next_value_id();
    f.register_type(next_iv, IrType::Int(IntWidth::I32));
    f.block_mut(body).insts.push(Inst {
        id: next_iv,
        ty: IrType::Int(IntWidth::I32),
        span,
        kind: InstKind::IAdd(iv, one),
    });
    f.block_mut(body).terminator = Some(Terminator::Branch(header, vec![next_iv]));
    f.block_mut(exit).terminator = Some(Terminator::Return(None));
    m.add_function(f);

    let pass = Bce;
    assert!(
        pass.run(&mut m),
        "iv+1 check should be removed for trip range 2..7 and checked bounds 1..8"
    );
    let has_check = m.functions[0].block(body).insts.iter().any(|inst| {
        matches!(
            inst.kind,
            InstKind::RuntimeCall(RuntimeFunc::CheckBounds, _)
        )
    });
    assert!(!has_check, "loop body should no longer contain CheckBounds");
}

#[test]
fn bce_removes_loop_iv_minus_constant_check() {
    let mut m = Module::new("test".into(), TargetLayout::LP64);
    let mut f = Function::new("test".into(), vec![], IrType::Void);
    let span = Span {
        file_id: 0,
        start: Position { line: 0, col: 0 },
        end: Position { line: 0, col: 0 },
    };

    let header = f.create_block("header");
    let body = f.create_block("body");
    let exit = f.create_block("exit");

    let init = f.next_value_id();
    f.register_type(init, IrType::Int(IntWidth::I32));
    f.block_mut(f.entry).insts.push(Inst {
        id: init,
        ty: IrType::Int(IntWidth::I32),
        span,
        kind: InstKind::ConstInt(2, IntWidth::I32),
    });
    f.block_mut(f.entry).terminator = Some(Terminator::Branch(header, vec![init]));

    let iv = f.next_value_id();
    f.register_type(iv, IrType::Int(IntWidth::I32));
    f.block_mut(header).params.push(BlockParam {
        id: iv,
        ty: IrType::Int(IntWidth::I32),
    });

    let bound = f.next_value_id();
    f.register_type(bound, IrType::Int(IntWidth::I32));
    f.block_mut(header).insts.push(Inst {
        id: bound,
        ty: IrType::Int(IntWidth::I32),
        span,
        kind: InstKind::ConstInt(7, IntWidth::I32),
    });
    let cond = f.next_value_id();
    f.register_type(cond, IrType::Bool);
    f.block_mut(header).insts.push(Inst {
        id: cond,
        ty: IrType::Bool,
        span,
        kind: InstKind::ICmp(CmpOp::Le, iv, bound),
    });
    f.block_mut(header).terminator = Some(Terminator::CondBranch {
        cond,
        true_dest: body,
        true_args: vec![],
        false_dest: exit,
        false_args: vec![],
    });

    let one = f.next_value_id();
    f.register_type(one, IrType::Int(IntWidth::I32));
    f.block_mut(body).insts.push(Inst {
        id: one,
        ty: IrType::Int(IntWidth::I32),
        span,
        kind: InstKind::ConstInt(1, IntWidth::I32),
    });
    let minus = f.next_value_id();
    f.register_type(minus, IrType::Int(IntWidth::I32));
    f.block_mut(body).insts.push(Inst {
        id: minus,
        ty: IrType::Int(IntWidth::I32),
        span,
        kind: InstKind::ISub(iv, one),
    });
    let minus64 = f.next_value_id();
    f.register_type(minus64, IrType::Int(IntWidth::I64));
    f.block_mut(body).insts.push(Inst {
        id: minus64,
        ty: IrType::Int(IntWidth::I64),
        span,
        kind: InstKind::IntExtend(minus, IntWidth::I64, true),
    });
    let lo = f.next_value_id();
    f.register_type(lo, IrType::Int(IntWidth::I64));
    f.block_mut(body).insts.push(Inst {
        id: lo,
        ty: IrType::Int(IntWidth::I64),
        span,
        kind: InstKind::ConstInt(1, IntWidth::I64),
    });
    let hi = f.next_value_id();
    f.register_type(hi, IrType::Int(IntWidth::I64));
    f.block_mut(body).insts.push(Inst {
        id: hi,
        ty: IrType::Int(IntWidth::I64),
        span,
        kind: InstKind::ConstInt(8, IntWidth::I64),
    });
    let check = f.next_value_id();
    f.register_type(check, IrType::Void);
    f.block_mut(body).insts.push(Inst {
        id: check,
        ty: IrType::Void,
        span,
        kind: InstKind::RuntimeCall(RuntimeFunc::CheckBounds, vec![minus64, lo, hi]),
    });
    let next_iv = f.next_value_id();
    f.register_type(next_iv, IrType::Int(IntWidth::I32));
    f.block_mut(body).insts.push(Inst {
        id: next_iv,
        ty: IrType::Int(IntWidth::I32),
        span,
        kind: InstKind::IAdd(iv, one),
    });
    f.block_mut(body).terminator = Some(Terminator::Branch(header, vec![next_iv]));
    f.block_mut(exit).terminator = Some(Terminator::Return(None));
    m.add_function(f);

    let pass = Bce;
    assert!(
        pass.run(&mut m),
        "iv-1 check should be removed for trip range 2..7 and checked bounds 1..8"
    );
    let has_check = m.functions[0].block(body).insts.iter().any(|inst| {
        matches!(
            inst.kind,
            InstKind::RuntimeCall(RuntimeFunc::CheckBounds, _)
        )
    });
    assert!(!has_check, "loop body should no longer contain CheckBounds");
}

#[test]
fn bce_keeps_loop_iv_plus_constant_check_when_offset_exceeds_upper_bound() {
    let mut m = Module::new("test".into(), TargetLayout::LP64);
    let mut f = Function::new("test".into(), vec![], IrType::Void);
    let span = Span {
        file_id: 0,
        start: Position { line: 0, col: 0 },
        end: Position { line: 0, col: 0 },
    };

    let header = f.create_block("header");
    let body = f.create_block("body");
    let exit = f.create_block("exit");

    let init = f.next_value_id();
    f.register_type(init, IrType::Int(IntWidth::I32));
    f.block_mut(f.entry).insts.push(Inst {
        id: init,
        ty: IrType::Int(IntWidth::I32),
        span,
        kind: InstKind::ConstInt(2, IntWidth::I32),
    });
    f.block_mut(f.entry).terminator = Some(Terminator::Branch(header, vec![init]));

    let iv = f.next_value_id();
    f.register_type(iv, IrType::Int(IntWidth::I32));
    f.block_mut(header).params.push(BlockParam {
        id: iv,
        ty: IrType::Int(IntWidth::I32),
    });

    let bound = f.next_value_id();
    f.register_type(bound, IrType::Int(IntWidth::I32));
    f.block_mut(header).insts.push(Inst {
        id: bound,
        ty: IrType::Int(IntWidth::I32),
        span,
        kind: InstKind::ConstInt(7, IntWidth::I32),
    });
    let cond = f.next_value_id();
    f.register_type(cond, IrType::Bool);
    f.block_mut(header).insts.push(Inst {
        id: cond,
        ty: IrType::Bool,
        span,
        kind: InstKind::ICmp(CmpOp::Le, iv, bound),
    });
    f.block_mut(header).terminator = Some(Terminator::CondBranch {
        cond,
        true_dest: body,
        true_args: vec![],
        false_dest: exit,
        false_args: vec![],
    });

    let two = f.next_value_id();
    f.register_type(two, IrType::Int(IntWidth::I32));
    f.block_mut(body).insts.push(Inst {
        id: two,
        ty: IrType::Int(IntWidth::I32),
        span,
        kind: InstKind::ConstInt(2, IntWidth::I32),
    });
    let plus = f.next_value_id();
    f.register_type(plus, IrType::Int(IntWidth::I32));
    f.block_mut(body).insts.push(Inst {
        id: plus,
        ty: IrType::Int(IntWidth::I32),
        span,
        kind: InstKind::IAdd(iv, two),
    });
    let plus64 = f.next_value_id();
    f.register_type(plus64, IrType::Int(IntWidth::I64));
    f.block_mut(body).insts.push(Inst {
        id: plus64,
        ty: IrType::Int(IntWidth::I64),
        span,
        kind: InstKind::IntExtend(plus, IntWidth::I64, true),
    });
    let lo = f.next_value_id();
    f.register_type(lo, IrType::Int(IntWidth::I64));
    f.block_mut(body).insts.push(Inst {
        id: lo,
        ty: IrType::Int(IntWidth::I64),
        span,
        kind: InstKind::ConstInt(1, IntWidth::I64),
    });
    let hi = f.next_value_id();
    f.register_type(hi, IrType::Int(IntWidth::I64));
    f.block_mut(body).insts.push(Inst {
        id: hi,
        ty: IrType::Int(IntWidth::I64),
        span,
        kind: InstKind::ConstInt(8, IntWidth::I64),
    });
    let check = f.next_value_id();
    f.register_type(check, IrType::Void);
    f.block_mut(body).insts.push(Inst {
        id: check,
        ty: IrType::Void,
        span,
        kind: InstKind::RuntimeCall(RuntimeFunc::CheckBounds, vec![plus64, lo, hi]),
    });
    let one = f.next_value_id();
    f.register_type(one, IrType::Int(IntWidth::I32));
    f.block_mut(body).insts.push(Inst {
        id: one,
        ty: IrType::Int(IntWidth::I32),
        span,
        kind: InstKind::ConstInt(1, IntWidth::I32),
    });
    let next_iv = f.next_value_id();
    f.register_type(next_iv, IrType::Int(IntWidth::I32));
    f.block_mut(body).insts.push(Inst {
        id: next_iv,
        ty: IrType::Int(IntWidth::I32),
        span,
        kind: InstKind::IAdd(iv, one),
    });
    f.block_mut(body).terminator = Some(Terminator::Branch(header, vec![next_iv]));
    f.block_mut(exit).terminator = Some(Terminator::Return(None));
    m.add_function(f);

    let pass = Bce;
    assert!(
        !pass.run(&mut m),
        "iv+2 check must remain when trip range 2..7 would access 9 beyond checked upper bound 8"
    );
}

#[test]
fn bce_removes_loop_iv_plus_constant_check_with_large_step() {
    let mut m = Module::new("test".into(), TargetLayout::LP64);
    let mut f = Function::new("test".into(), vec![], IrType::Void);
    let span = Span {
        file_id: 0,
        start: Position { line: 0, col: 0 },
        end: Position { line: 0, col: 0 },
    };

    let header = f.create_block("header");
    let body = f.create_block("body");
    let exit = f.create_block("exit");

    let init = f.next_value_id();
    f.register_type(init, IrType::Int(IntWidth::I32));
    f.block_mut(f.entry).insts.push(Inst {
        id: init,
        ty: IrType::Int(IntWidth::I32),
        span,
        kind: InstKind::ConstInt(5, IntWidth::I32),
    });
    f.block_mut(f.entry).terminator = Some(Terminator::Branch(header, vec![init]));

    let iv = f.next_value_id();
    f.register_type(iv, IrType::Int(IntWidth::I32));
    f.block_mut(header).params.push(BlockParam {
        id: iv,
        ty: IrType::Int(IntWidth::I32),
    });

    let bound = f.next_value_id();
    f.register_type(bound, IrType::Int(IntWidth::I32));
    f.block_mut(header).insts.push(Inst {
        id: bound,
        ty: IrType::Int(IntWidth::I32),
        span,
        kind: InstKind::ConstInt(10, IntWidth::I32),
    });
    let cond = f.next_value_id();
    f.register_type(cond, IrType::Bool);
    f.block_mut(header).insts.push(Inst {
        id: cond,
        ty: IrType::Bool,
        span,
        kind: InstKind::ICmp(CmpOp::Le, iv, bound),
    });
    f.block_mut(header).terminator = Some(Terminator::CondBranch {
        cond,
        true_dest: body,
        true_args: vec![],
        false_dest: exit,
        false_args: vec![],
    });

    let five = f.next_value_id();
    f.register_type(five, IrType::Int(IntWidth::I32));
    f.block_mut(body).insts.push(Inst {
        id: five,
        ty: IrType::Int(IntWidth::I32),
        span,
        kind: InstKind::ConstInt(5, IntWidth::I32),
    });
    let plus = f.next_value_id();
    f.register_type(plus, IrType::Int(IntWidth::I32));
    f.block_mut(body).insts.push(Inst {
        id: plus,
        ty: IrType::Int(IntWidth::I32),
        span,
        kind: InstKind::IAdd(iv, five),
    });
    let plus64 = f.next_value_id();
    f.register_type(plus64, IrType::Int(IntWidth::I64));
    f.block_mut(body).insts.push(Inst {
        id: plus64,
        ty: IrType::Int(IntWidth::I64),
        span,
        kind: InstKind::IntExtend(plus, IntWidth::I64, true),
    });
    let lo = f.next_value_id();
    f.register_type(lo, IrType::Int(IntWidth::I64));
    f.block_mut(body).insts.push(Inst {
        id: lo,
        ty: IrType::Int(IntWidth::I64),
        span,
        kind: InstKind::ConstInt(1, IntWidth::I64),
    });
    let hi = f.next_value_id();
    f.register_type(hi, IrType::Int(IntWidth::I64));
    f.block_mut(body).insts.push(Inst {
        id: hi,
        ty: IrType::Int(IntWidth::I64),
        span,
        kind: InstKind::ConstInt(10, IntWidth::I64),
    });
    let check = f.next_value_id();
    f.register_type(check, IrType::Void);
    f.block_mut(body).insts.push(Inst {
        id: check,
        ty: IrType::Void,
        span,
        kind: InstKind::RuntimeCall(RuntimeFunc::CheckBounds, vec![plus64, lo, hi]),
    });
    let step = f.next_value_id();
    f.register_type(step, IrType::Int(IntWidth::I32));
    f.block_mut(body).insts.push(Inst {
        id: step,
        ty: IrType::Int(IntWidth::I32),
        span,
        kind: InstKind::ConstInt(6, IntWidth::I32),
    });
    let next_iv = f.next_value_id();
    f.register_type(next_iv, IrType::Int(IntWidth::I32));
    f.block_mut(body).insts.push(Inst {
        id: next_iv,
        ty: IrType::Int(IntWidth::I32),
        span,
        kind: InstKind::IAdd(iv, step),
    });
    f.block_mut(body).terminator = Some(Terminator::Branch(header, vec![next_iv]));
    f.block_mut(exit).terminator = Some(Terminator::Return(None));
    m.add_function(f);

    let pass = Bce;
    assert!(
        pass.run(&mut m),
        "iv+5 check should be removed when the trip sequence is only 5 and checked bounds are 1..10"
    );
    let has_check = m.functions[0].block(body).insts.iter().any(|inst| {
        matches!(
            inst.kind,
            InstKind::RuntimeCall(RuntimeFunc::CheckBounds, _)
        )
    });
    assert!(!has_check, "loop body should no longer contain CheckBounds");
}

#[test]
fn loop_index_decomposes_constant_multiplied_iv() {
    let mut f = Function::new("test".into(), vec![], IrType::Void);
    let span = Span {
        file_id: 0,
        start: Position { line: 0, col: 0 },
        end: Position { line: 0, col: 0 },
    };

    // Synthesise: i = next_value(); 2*i; (2*i) + 3 — verify the
    // decomposition (base, scale, offset) recovers (i, 2, 3).
    let entry = f.entry;
    let i = f.next_value_id();
    f.register_type(i, IrType::Int(IntWidth::I32));
    let two = f.next_value_id();
    f.register_type(two, IrType::Int(IntWidth::I32));
    f.block_mut(entry).insts.push(Inst {
        id: two,
        ty: IrType::Int(IntWidth::I32),
        span,
        kind: InstKind::ConstInt(2, IntWidth::I32),
    });
    let two_i = f.next_value_id();
    f.register_type(two_i, IrType::Int(IntWidth::I32));
    f.block_mut(entry).insts.push(Inst {
        id: two_i,
        ty: IrType::Int(IntWidth::I32),
        span,
        kind: InstKind::IMul(two, i),
    });
    let three = f.next_value_id();
    f.register_type(three, IrType::Int(IntWidth::I32));
    f.block_mut(entry).insts.push(Inst {
        id: three,
        ty: IrType::Int(IntWidth::I32),
        span,
        kind: InstKind::ConstInt(3, IntWidth::I32),
    });
    let two_i_plus_three = f.next_value_id();
    f.register_type(two_i_plus_three, IrType::Int(IntWidth::I32));
    f.block_mut(entry).insts.push(Inst {
        id: two_i_plus_three,
        ty: IrType::Int(IntWidth::I32),
        span,
        kind: InstKind::IAdd(two_i, three),
    });

    let (base, scale, offset) =
        loop_index_base_and_offset(&f, two_i_plus_three).expect("should decompose");
    assert_eq!(base, i, "base should be the unanalysable inner value");
    assert_eq!(scale, 2, "scale captures the IMul by 2");
    assert_eq!(offset, 3, "offset captures the +3");
}
