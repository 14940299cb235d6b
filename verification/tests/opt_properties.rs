use armfortas::ids::{IdMap, IdSet};
use armfortas::ir::inst::{
    BlockId, BlockParam, CmpOp, FuncRef, Function, Inst, InstKind, Module, Param, RuntimeFunc,
    Terminator, ValueId,
};
use armfortas::ir::types::{FloatWidth, IntWidth, IrType};
use armfortas::ir::verify::{verify_function, verify_module};
use armfortas::ir::walk::{for_each_operand_mut, for_each_terminator_operand_mut, inst_uses};
use armfortas::lexer::{Position, Span};
use armfortas::opt::affine::AffineExpr;
use armfortas::opt::alias::{query, AliasOracle, AliasResult};
use armfortas::opt::bce::Bce;
use armfortas::opt::call_resolve::CallResolve;
use armfortas::opt::callgraph::CallGraph;
use armfortas::opt::const_arg::ConstArgSpecialize;
use armfortas::opt::const_fold::{try_fold, Const, ConstFold};
use armfortas::opt::const_prop::ConstProp;
use armfortas::opt::cse::{instruction_key, LocalCse};
use armfortas::opt::dce::Dce;
use armfortas::opt::dead_arg::{inst_uses_param, DeadArgElim};
use armfortas::opt::dead_func::DeadFuncElim;
use armfortas::opt::dep_analysis::{
    extract_affine, gcd, interchange_legal, test_dependence, MemRef,
};
use armfortas::opt::dse::{find_dead_stores, Dse};
use armfortas::opt::edit::remove_insts;
use armfortas::opt::fast_math::FastMathReassoc;
use armfortas::opt::floats::{
    finite, precedes, round_for_width, zero, FloatBin, FloatReply, FloatRequest, FloatUn,
};
use armfortas::opt::ints::{least, mask, sign_extend, zero_extend};
use armfortas::opt::loop_utils::resolve_const_int;
use armfortas::opt::pass::Pass;
use armfortas::target::TargetLayout;

/// Answers floating-point questions with the arithmetic of the machine.
fn evaluate(q: FloatRequest) -> FloatReply {
    match q {
        FloatRequest::Binary(op, a, b) => {
            let (x, y) = (f64::from_bits(a), f64::from_bits(b));
            let r = match op {
                FloatBin::Add => x + y,
                FloatBin::Sub => x - y,
                FloatBin::Mul => x * y,
                FloatBin::Div => x / y,
                FloatBin::Pow => x.powf(y),
            };
            FloatReply::Bits(r.to_bits())
        }
        FloatRequest::Unary(op, a) => {
            let x = f64::from_bits(a);
            let r = match op {
                FloatUn::Neg => -x,
                FloatUn::Abs => x.abs(),
                FloatUn::Sqrt => x.sqrt(),
            };
            FloatReply::Bits(r.to_bits())
        }
        FloatRequest::Round(a) => {
            FloatReply::Bits(((f64::from_bits(a) as f32) as f64).to_bits())
        }
        FloatRequest::Compare(op, a, b) => {
            let (x, y) = (f64::from_bits(a), f64::from_bits(b));
            FloatReply::Truth(match op {
                CmpOp::Eq => x == y,
                CmpOp::Ne => x != y,
                CmpOp::Lt => x < y,
                CmpOp::Le => x <= y,
                CmpOp::Gt => x > y,
                CmpOp::Ge => x >= y,
            })
        }
        FloatRequest::FromInt(n, w) => FloatReply::Bits(match w {
            FloatWidth::F32 => ((n as f32) as f64).to_bits(),
            FloatWidth::F64 => (n as f64).to_bits(),
        }),
        FloatRequest::Truncate(a) => {
            let x = f64::from_bits(a);
            FloatReply::Whole(if x.is_finite() { Some(x.trunc() as i128) } else { None })
        }
    }
}

fn span() -> Span {
    let p = Position { line: 1, col: 1 };
    Span { file_id: 0, start: p, end: p }
}

fn push_in(f: &mut Function, b: BlockId, kind: InstKind, ty: IrType) -> ValueId {
    let id = f.next_value_id();
    f.register_type(id, ty.clone());
    f.block_mut(b).insts.push(Inst { id, kind, ty, span: span() });
    id
}

fn push(f: &mut Function, kind: InstKind, ty: IrType) -> ValueId {
    let entry = f.entry;
    push_in(f, entry, kind, ty)
}

fn finish(f: &mut Function, v: Option<ValueId>) {
    let entry = f.entry;
    f.block_mut(entry).terminator = Some(Terminator::Return(v));
}

fn int_type(w: IntWidth) -> IrType {
    IrType::Int(w)
}

fn i32t() -> IrType {
    IrType::Int(IntWidth::I32)
}

fn f64t() -> IrType {
    IrType::Float(FloatWidth::F64)
}

fn ptr(ty: IrType) -> IrType {
    IrType::Ptr(Box::new(ty))
}

fn const_i32(f: &mut Function, v: i128) -> ValueId {
    push(f, InstKind::ConstInt(v, IntWidth::I32), i32t())
}

fn param(name: &str, id: u32, ty: IrType) -> Param {
    Param { name: name.into(), ty, id: ValueId(id), fortran_noalias: false }
}

fn module_of(fs: Vec<Function>) -> Module {
    let mut m = Module::new("m".into(), TargetLayout::LP64);
    for f in fs {
        m.add_function(f);
    }
    m
}

fn kind_at(m: &Module, k: usize) -> &InstKind {
    &m.functions[0].blocks[0].insts[k].kind
}

#[test]
fn sign_extension_is_canonical_and_keeps_the_low_bits() {
    for w in [IntWidth::I8, IntWidth::I16, IntWidth::I32, IntWidth::I64, IntWidth::I128] {
        for v in [0i128, 1, -1, 127, 128, 255, 256, -129, 1 << 40, i128::MIN, i128::MAX] {
            let s = sign_extend(v, w);
            assert_eq!(sign_extend(s, w), s);
            assert_eq!(mask(s, w), mask(v, w));
        }
    }
    assert_eq!(sign_extend(200, IntWidth::I8), -56);
    assert_eq!(zero_extend(-1, IntWidth::I16), 65535);
    assert_eq!(least(IntWidth::I8), -128);
    assert_eq!(least(IntWidth::I128), i128::MIN);
}

#[test]
fn folded_sums_wrap_at_their_width() {
    let mut f = Function::new("f".into(), vec![], int_type(IntWidth::I8));
    let a = push(&mut f, InstKind::ConstInt(100, IntWidth::I8), int_type(IntWidth::I8));
    let b = push(&mut f, InstKind::IAdd(a, a), int_type(IntWidth::I8));
    finish(&mut f, Some(b));
    let mut m = module_of(vec![f]);
    assert!(ConstFold { floats: evaluate }.run(&mut m));
    assert!(matches!(kind_at(&m, 1), InstKind::ConstInt(-56, IntWidth::I8)));
    assert!(!ConstFold { floats: evaluate }.run(&mut m));
}

#[test]
fn the_least_integer_divided_by_minus_one_stays() {
    let mut f = Function::new("f".into(), vec![], i32t());
    let a = const_i32(&mut f, i32::MIN as i128);
    let b = const_i32(&mut f, -1);
    let q = push(&mut f, InstKind::IDiv(a, b), i32t());
    finish(&mut f, Some(q));
    let mut m = module_of(vec![f]);
    assert!(!ConstFold { floats: evaluate }.run(&mut m));
    assert!(matches!(kind_at(&m, 2), InstKind::IDiv(_, _)));
}

#[test]
fn folding_keeps_functions_sound() {
    let mut f = Function::new("f".into(), vec![], i32t());
    let a = const_i32(&mut f, 6);
    let b = const_i32(&mut f, 7);
    let c = push(&mut f, InstKind::IMul(a, b), i32t());
    let d = push(&mut f, InstKind::INeg(c), i32t());
    finish(&mut f, Some(d));
    let mut m = module_of(vec![f]);
    assert!(verify_module(&m).is_empty());
    assert!(ConstFold { floats: evaluate }.run(&mut m));
    assert!(verify_module(&m).is_empty());
    assert!(matches!(kind_at(&m, 2), InstKind::ConstInt(42, IntWidth::I32)));
    assert!(matches!(kind_at(&m, 3), InstKind::ConstInt(-42, IntWidth::I32)));
    assert_eq!(m.functions[0].blocks[0].insts[3].id, d);
}

#[test]
fn propagation_keeps_functions_sound_and_leaves_reachable_blocks() {
    let mut f = Function::new("f".into(), vec![], IrType::Void);
    let yes = f.create_block("yes");
    let no = f.create_block("no");
    let tail = f.create_block("tail");
    let entry = f.entry;
    let c = push(&mut f, InstKind::ConstBool(true), IrType::Bool);
    f.block_mut(entry).terminator = Some(Terminator::CondBranch {
        cond: c,
        true_dest: yes,
        true_args: vec![],
        false_dest: no,
        false_args: vec![],
    });
    let v = push_in(&mut f, no, InstKind::ConstInt(1, IntWidth::I32), i32t());
    push_in(&mut f, tail, InstKind::INeg(v), i32t());
    f.block_mut(yes).terminator = Some(Terminator::Return(None));
    f.block_mut(no).terminator = Some(Terminator::Branch(tail, vec![]));
    f.block_mut(tail).terminator = Some(Terminator::Return(None));
    assert!(verify_function(&f).is_empty());
    let mut m = module_of(vec![f]);
    assert!(ConstProp.run(&mut m));
    assert!(verify_module(&m).is_empty());
    let left: Vec<BlockId> = m.functions[0].blocks.iter().map(|b| b.id).collect();
    assert_eq!(left, vec![entry, yes]);
    assert!(!ConstProp.run(&mut m));
}

#[test]
fn numbers_are_told_apart_by_their_bits() {
    assert!(finite(1.5f64.to_bits()));
    assert!(!finite(f64::INFINITY.to_bits()));
    assert!(!finite(f64::NAN.to_bits()));
    assert!(zero((-0.0f64).to_bits()));
    assert!(!zero(f64::MIN_POSITIVE.to_bits()));
    assert!(precedes((-2.0f64).to_bits(), 1.0f64.to_bits()));
    assert!(!precedes(1.0f64.to_bits(), (-2.0f64).to_bits()));
    assert!(precedes(1.0f64.to_bits(), 1.5f64.to_bits()));
}

#[test]
fn single_precision_numbers_are_rounded() {
    let third = (1.0f64 / 3.0).to_bits();
    let single = ((1.0f64 / 3.0) as f32) as f64;
    assert_eq!(round_for_width(&evaluate, third, FloatWidth::F32), Some(single.to_bits()));
    assert_eq!(round_for_width(&evaluate, third, FloatWidth::F64), Some(third));
}

#[test]
fn aliasing_does_not_depend_on_the_order_of_the_pointers() {
    let array = IrType::Array(Box::new(i32t()), 8);
    let mut f = Function::new("f".into(), vec![param("p", 0, ptr(i32t()))], IrType::Void);
    let a = push(&mut f, InstKind::Alloca(array.clone()), ptr(array.clone()));
    let b = push(&mut f, InstKind::Alloca(array.clone()), ptr(array));
    let g = push(&mut f, InstKind::GlobalAddr("g".into()), ptr(i32t()));
    let h = push(&mut f, InstKind::GlobalAddr("h".into()), ptr(i32t()));
    let one = const_i32(&mut f, 1);
    let two = const_i32(&mut f, 2);
    let a1 = push(&mut f, InstKind::GetElementPtr(a, vec![one]), ptr(i32t()));
    let a2 = push(&mut f, InstKind::GetElementPtr(a, vec![two]), ptr(i32t()));
    let a1b = push(&mut f, InstKind::GetElementPtr(a, vec![one]), ptr(i32t()));
    finish(&mut f, None);
    let all = [ValueId(0), a, b, g, h, a1, a2, a1b];
    for x in all {
        for y in all {
            let xy = query(&f, x, y, TargetLayout::LP64);
            assert_eq!(xy, query(&f, y, x, TargetLayout::LP64), "{:?} {:?}", x, y);
        }
    }
    assert_eq!(query(&f, a, b, TargetLayout::LP64), AliasResult::NoAlias);
    assert_eq!(query(&f, g, h, TargetLayout::LP64), AliasResult::NoAlias);
    assert_eq!(query(&f, a1, a2, TargetLayout::LP64), AliasResult::NoAlias);
    assert_eq!(query(&f, a1, a1b, TargetLayout::LP64), AliasResult::MustAlias);
}

#[test]
fn equal_computations_are_shared_whatever_their_operand_order() {
    let params = vec![param("x", 0, i32t()), param("y", 1, i32t())];
    let mut f = Function::new("f".into(), params, i32t());
    let a = push(&mut f, InstKind::IAdd(ValueId(0), ValueId(1)), i32t());
    let b = push(&mut f, InstKind::IAdd(ValueId(1), ValueId(0)), i32t());
    let c = push(&mut f, InstKind::ISub(a, b), i32t());
    finish(&mut f, Some(c));
    let key = |k: usize| instruction_key(&f.blocks[0].insts[k]);
    assert!(key(0).unwrap().same(&key(1).unwrap()));
    assert!(!key(0).unwrap().same(&key(2).unwrap()));
    let mut m = module_of(vec![f]);
    assert!(verify_module(&m).is_empty());
    assert!(LocalCse.run(&mut m));
    assert!(verify_module(&m).is_empty());
    match kind_at(&m, m.functions[0].blocks[0].insts.len() - 1) {
        InstKind::ISub(x, y) => assert_eq!((*x, *y), (a, a)),
        other => panic!("expected a difference, got {:?}", other),
    }
}

#[test]
fn effects_have_no_key() {
    let mut f = Function::new("f".into(), vec![param("p", 0, ptr(i32t()))], IrType::Void);
    let v = const_i32(&mut f, 1);
    push(&mut f, InstKind::Store(v, ValueId(0)), IrType::Void);
    push(&mut f, InstKind::Call(FuncRef::External("g".into()), vec![]), IrType::Void);
    finish(&mut f, None);
    assert!(instruction_key(&f.blocks[0].insts[0]).is_some());
    assert!(instruction_key(&f.blocks[0].insts[1]).is_none());
    assert!(instruction_key(&f.blocks[0].insts[2]).is_none());
}

#[test]
fn cleaning_drops_unread_values_and_keeps_effects() {
    let mut f = Function::new("f".into(), vec![param("p", 0, ptr(i32t()))], IrType::Void);
    let v = const_i32(&mut f, 1);
    let w = const_i32(&mut f, 2);
    push(&mut f, InstKind::IAdd(w, w), i32t());
    push(&mut f, InstKind::Store(v, ValueId(0)), IrType::Void);
    finish(&mut f, None);
    let mut m = module_of(vec![f]);
    assert!(Dce.run(&mut m));
    assert_eq!(m.functions[0].blocks[0].insts.len(), 2);
    assert!(matches!(kind_at(&m, 1), InstKind::Store(_, _)));
    assert!(verify_module(&m).is_empty());
    assert!(!Dce.run(&mut m));
}

#[test]
fn of_two_stores_to_one_place_the_last_stays() {
    let mut f = Function::new("f".into(), vec![], i32t());
    let slot = push(&mut f, InstKind::Alloca(i32t()), ptr(i32t()));
    let a = const_i32(&mut f, 1);
    let b = const_i32(&mut f, 2);
    push(&mut f, InstKind::Store(a, slot), IrType::Void);
    push(&mut f, InstKind::Store(b, slot), IrType::Void);
    let r = push(&mut f, InstKind::Load(slot), i32t());
    finish(&mut f, Some(r));
    let mut m = module_of(vec![f]);
    assert!(Dse.run(&mut m));
    assert!(verify_module(&m).is_empty());
    let stores: Vec<ValueId> = m.functions[0].blocks[0]
        .insts
        .iter()
        .filter_map(|i| match &i.kind {
            InstKind::Store(v, _) => Some(*v),
            _ => None,
        })
        .collect();
    assert_eq!(stores, vec![b]);
}

#[test]
fn greatest_common_divisors_divide() {
    assert_eq!(gcd(12, 18), 6);
    assert_eq!(gcd(0, 5), 5);
    assert_eq!(gcd(5, 0), 5);
    assert_eq!(gcd(0, 0), 0);
    assert_eq!(gcd(u64::MAX, 3), 3);
}

#[test]
fn accesses_with_different_parity_do_not_meet() {
    let i = ValueId(1);
    let two_i = AffineExpr::from_iv(i).checked_multiple(2).unwrap();
    let two_i_1 = two_i.checked_sum(&AffineExpr::from_const(1)).unwrap();
    let at = |e: &AffineExpr, w: bool| MemRef {
        inst_id: ValueId(2),
        base: ValueId(0),
        subscript: e.checked_sum(&AffineExpr::from_const(0)).unwrap(),
        is_write: w,
    };
    assert!(!test_dependence(&at(&two_i, true), &at(&two_i_1, false)).dependent);
    assert!(test_dependence(&at(&two_i, true), &at(&two_i, false)).dependent);
    assert!(two_i.checked_multiple(i64::MAX).is_none());
}

#[test]
fn subscripts_are_read_as_affine_expressions() {
    let mut f = Function::new("f".into(), vec![param("i", 0, i32t())], IrType::Void);
    let three = const_i32(&mut f, 3);
    let five = const_i32(&mut f, 5);
    let m = push(&mut f, InstKind::IMul(ValueId(0), three), i32t());
    let s = push(&mut f, InstKind::ISub(m, five), i32t());
    let sq = push(&mut f, InstKind::IMul(ValueId(0), ValueId(0)), i32t());
    finish(&mut f, None);
    let mut ivs: IdSet<ValueId> = IdSet::new();
    ivs.insert(ValueId(0));
    let e = extract_affine(&f, s, &ivs).unwrap();
    assert_eq!(e.constant, -5);
    assert_eq!(e.terms, vec![(3, ValueId(0))]);
    assert!(extract_affine(&f, sq, &ivs).is_none());
    assert_eq!(resolve_const_int(&f, five), Some(5));
    assert_eq!(resolve_const_int(&f, s), None);
}

#[test]
fn names_of_known_functions_become_internal_calls() {
    let mut callee = Function::new("g".into(), vec![], IrType::Void);
    finish(&mut callee, None);
    let mut caller = Function::new("f".into(), vec![], IrType::Void);
    push(&mut caller, InstKind::Call(FuncRef::External("g".into()), vec![]), IrType::Void);
    push(&mut caller, InstKind::Call(FuncRef::External("h".into()), vec![]), IrType::Void);
    finish(&mut caller, None);
    let mut m = module_of(vec![caller, callee]);
    assert!(CallResolve.run(&mut m));
    assert!(verify_module(&m).is_empty());
    assert!(matches!(kind_at(&m, 0), InstKind::Call(FuncRef::Internal(1), _)));
    assert!(matches!(kind_at(&m, 1), InstKind::Call(FuncRef::External(_), _)));
    assert!(!CallResolve.run(&mut m));
}

#[test]
fn callees_come_before_their_callers() {
    let mut fs: Vec<Function> = vec![];
    for (name, calls) in [("main", vec![1u32, 2]), ("a", vec![2]), ("b", vec![]), ("r", vec![3])] {
        let mut f = Function::new(name.into(), vec![], IrType::Void);
        for c in calls {
            push(&mut f, InstKind::Call(FuncRef::Internal(c), vec![]), IrType::Void);
        }
        finish(&mut f, None);
        fs.push(f);
    }
    let g = CallGraph::build(&module_of(fs));
    let order = g.bottom_up_order();
    let at = |i: u32| order.iter().position(|x| *x == i).unwrap();
    assert_eq!(order.len(), 4);
    assert!(at(2) < at(1) && at(1) < at(0));
    assert!(g.is_recursive(3));
    assert!(!g.is_recursive(0));
}

#[test]
fn unread_parameters_leave_with_their_arguments() {
    let params = vec![param("x", 0, i32t()), param("y", 1, i32t())];
    let mut callee = Function::new("g".into(), params, i32t());
    callee.internal_only = true;
    finish(&mut callee, Some(ValueId(1)));
    let mut caller = Function::new("f".into(), vec![], i32t());
    let a = const_i32(&mut caller, 1);
    let b = const_i32(&mut caller, 2);
    let r = push(&mut caller, InstKind::Call(FuncRef::Internal(1), vec![a, b]), i32t());
    finish(&mut caller, Some(r));
    let mut m = module_of(vec![caller, callee]);
    assert!(DeadArgElim.run(&mut m));
    assert!(verify_module(&m).is_empty());
    assert_eq!(m.functions[1].params.len(), 1);
    assert_eq!(m.functions[1].params[0].id, ValueId(1));
    match kind_at(&m, 2) {
        InstKind::Call(_, args) => assert_eq!(args, &vec![b]),
        other => panic!("expected a call, got {:?}", other),
    }
}

#[test]
fn dropping_functions_keeps_calls_at_their_callee() {
    let mut main = Function::new("main".into(), vec![], IrType::Void);
    push(&mut main, InstKind::Call(FuncRef::Internal(2), vec![]), IrType::Void);
    finish(&mut main, None);
    let mut unused = Function::new("unused".into(), vec![], IrType::Void);
    unused.internal_only = true;
    finish(&mut unused, None);
    let mut used = Function::new("used".into(), vec![], IrType::Void);
    used.internal_only = true;
    finish(&mut used, None);
    let mut m = module_of(vec![main, unused, used]);
    assert!(DeadFuncElim.run(&mut m));
    assert!(verify_module(&m).is_empty());
    assert_eq!(m.functions.len(), 2);
    assert_eq!(m.functions[0].name, "main");
    match kind_at(&m, 0) {
        InstKind::Call(FuncRef::Internal(k), _) => {
            assert_eq!(m.functions[*k as usize].name, "used")
        }
        other => panic!("expected a call, got {:?}", other),
    }
}

#[test]
fn a_parameter_that_is_always_one_constant_is_no_longer_read() {
    let mut callee = Function::new("g".into(), vec![param("x", 0, i32t())], i32t());
    callee.internal_only = true;
    let n = push(&mut callee, InstKind::INeg(ValueId(0)), i32t());
    finish(&mut callee, Some(n));
    let mut caller = Function::new("f".into(), vec![], i32t());
    let a = const_i32(&mut caller, 9);
    let r = push(&mut caller, InstKind::Call(FuncRef::Internal(1), vec![a]), i32t());
    finish(&mut caller, Some(r));
    let mut m = module_of(vec![caller, callee]);
    assert!(ConstArgSpecialize { floats: evaluate }.run(&mut m));
    let insts = &m.functions[1].blocks[0].insts;
    assert!(matches!(insts[0].kind, InstKind::ConstInt(9, IntWidth::I32)));
    match &insts[1].kind {
        InstKind::INeg(v) => assert_eq!(*v, insts[0].id),
        other => panic!("expected a negation, got {:?}", other),
    }
}

#[test]
fn a_constant_passed_by_address_replaces_the_loads() {
    let mut callee = Function::new("g".into(), vec![param("x", 0, ptr(i32t()))], i32t());
    callee.internal_only = true;
    let v = push(&mut callee, InstKind::Load(ValueId(0)), i32t());
    let n = push(&mut callee, InstKind::INeg(v), i32t());
    finish(&mut callee, Some(n));
    let mut caller = Function::new("f".into(), vec![], i32t());
    let slot = push(&mut caller, InstKind::Alloca(i32t()), ptr(i32t()));
    let a = const_i32(&mut caller, 5);
    push(&mut caller, InstKind::Store(a, slot), IrType::Void);
    let r = push(&mut caller, InstKind::Call(FuncRef::Internal(1), vec![slot]), i32t());
    finish(&mut caller, Some(r));
    let mut m = module_of(vec![caller, callee]);
    assert!(ConstArgSpecialize { floats: evaluate }.run(&mut m));
    let insts = &m.functions[1].blocks[0].insts;
    assert!(matches!(insts[0].kind, InstKind::ConstInt(5, IntWidth::I32)));
    assert!(insts.iter().all(|i| !matches!(i.kind, InstKind::Load(_))));
    match &insts.last().unwrap().kind {
        InstKind::INeg(v) => assert_eq!(*v, insts[0].id),
        other => panic!("expected a negation, got {:?}", other),
    }
    assert!(verify_module(&m).is_empty());
}

#[test]
fn constants_that_cancel_leave_the_rest_of_the_sum() {
    let mut f = Function::new("f".into(), vec![param("x", 0, f64t())], f64t());
    let c = push(&mut f, InstKind::ConstFloat(1e9f64.to_bits(), FloatWidth::F64), f64t());
    let s = push(&mut f, InstKind::FAdd(ValueId(0), c), f64t());
    let d = push(&mut f, InstKind::FSub(s, c), f64t());
    finish(&mut f, Some(d));
    let mut m = module_of(vec![f]);
    assert!(FastMathReassoc { floats: evaluate }.run(&mut m));
    match &m.functions[0].blocks[0].terminator {
        Some(Terminator::Return(Some(v))) => assert_eq!(*v, ValueId(0)),
        other => panic!("expected a return, got {:?}", other),
    }
}

#[test]
fn removed_instructions_are_gone_everywhere() {
    let mut f = Function::new("f".into(), vec![], IrType::Void);
    let a = const_i32(&mut f, 1);
    let b = const_i32(&mut f, 2);
    finish(&mut f, None);
    let mut dead: IdSet<ValueId> = IdSet::new();
    dead.insert(a);
    remove_insts(&mut f, &dead);
    let left: Vec<ValueId> = f.blocks[0].insts.iter().map(|i| i.id).collect();
    assert_eq!(left, vec![b]);
}

fn subscript(constant: i64, terms: Vec<(i64, ValueId)>) -> AffineExpr {
    AffineExpr { constant, terms }
}

fn access(e: AffineExpr, is_write: bool) -> MemRef {
    MemRef { inst_id: ValueId(9), base: ValueId(50), subscript: e, is_write }
}

#[test]
fn neighbours_meet_on_different_iterations() {
    let i = ValueId(100);
    let w = access(subscript(0, vec![(1, i)]), true);
    let r = access(subscript(1, vec![(1, i)]), false);
    assert!(test_dependence(&w, &r).dependent);
    assert!(test_dependence(&r, &w).dependent);
    let far = access(subscript(i64::MAX, vec![(2, i)]), true);
    let near = access(subscript(i64::MIN, vec![(2, i)]), false);
    assert!(!test_dependence(&far, &near).dependent);
    let even = access(subscript(0, vec![(2, i)]), true);
    let odd = access(subscript(1, vec![(4, i)]), false);
    assert!(!test_dependence(&even, &odd).dependent);
    assert!(test_dependence(&access(subscript(3, vec![]), true), &access(subscript(3, vec![]), false)).dependent);
    assert!(!test_dependence(&access(subscript(3, vec![]), true), &access(subscript(4, vec![]), false)).dependent);
}

/// A block that reads `a(p * i + q * j + c)` and writes `a(p * i + q * j)`.
fn nest(p: i128, q: i128, c: i128) -> Function {
    let params = vec![param("a", 0, ptr(i32t())), param("i", 1, i32t()), param("j", 2, i32t())];
    let mut f = Function::new("f".into(), params, IrType::Void);
    let kp = const_i32(&mut f, p);
    let kq = const_i32(&mut f, q);
    let kc = const_i32(&mut f, c);
    let pi = push(&mut f, InstKind::IMul(ValueId(1), kp), i32t());
    let qj = push(&mut f, InstKind::IMul(ValueId(2), kq), i32t());
    let s = push(&mut f, InstKind::IAdd(pi, qj), i32t());
    let t = push(&mut f, InstKind::IAdd(s, kc), i32t());
    let from = push(&mut f, InstKind::GetElementPtr(ValueId(0), vec![t]), ptr(i32t()));
    let v = push(&mut f, InstKind::Load(from), i32t());
    let to = push(&mut f, InstKind::GetElementPtr(ValueId(0), vec![s]), ptr(i32t()));
    push(&mut f, InstKind::Store(v, to), IrType::Void);
    finish(&mut f, None);
    f
}

#[test]
fn carried_dependences_on_both_variables_forbid_interchange() {
    let legal = |f: &Function| {
        let mut body: IdSet<BlockId> = IdSet::new();
        body.insert(f.entry);
        interchange_legal(f, &body, ValueId(1), ValueId(2))
    };
    // a(i*8 + j) = a((i+1)*8 + (j-1)): the coefficients cancel.
    assert!(!legal(&nest(8, 1, 7)));
    // The same element on the same iteration.
    assert!(legal(&nest(8, 1, 0)));
    // Never the same element.
    assert!(legal(&nest(8, 2, 7)));
    // Only one of the variables is involved.
    assert!(legal(&nest(8, 0, 8)));
}

#[test]
fn integers_are_compared_and_chosen_at_their_own_width() {
    let mut consts: IdMap<ValueId, Const> = IdMap::new();
    consts.insert(ValueId(0), Const::Int(255, IntWidth::I8));
    consts.insert(ValueId(1), Const::Int(-1, IntWidth::I8));
    consts.insert(ValueId(2), Const::Bool(true));
    let fold = |k: InstKind, ty: IrType| try_fold(&evaluate, &k, &ty, &consts, false);
    let eq = fold(InstKind::ICmp(CmpOp::Eq, ValueId(0), ValueId(1)), IrType::Bool);
    assert!(matches!(eq, Some(InstKind::ConstBool(true))));
    let pick = fold(
        InstKind::Select(ValueId(2), ValueId(0), ValueId(1)),
        int_type(IntWidth::I64),
    );
    assert!(matches!(pick, Some(InstKind::ConstInt(-1, IntWidth::I64))));
    let number = fold(InstKind::IntToFloat(ValueId(0), FloatWidth::F64), f64t());
    match number {
        Some(InstKind::ConstFloat(b, FloatWidth::F64)) => assert_eq!(f64::from_bits(b), -1.0),
        other => panic!("expected a number, got {:?}", other),
    }
}

#[test]
fn internal_calls_are_told_argument_by_argument() {
    let v = ValueId(3);
    assert!(!inst_uses_param(&InstKind::Call(FuncRef::Internal(0), vec![v]), v));
    assert!(inst_uses_param(&InstKind::Call(FuncRef::External("g".into()), vec![v]), v));
    assert!(inst_uses_param(&InstKind::Call(FuncRef::Indirect(v), vec![]), v));
    assert!(inst_uses_param(&InstKind::INeg(v), v));
    assert!(!inst_uses_param(&InstKind::INeg(ValueId(4)), v));
}

#[test]
fn specialising_keeps_modules_sound() {
    let mut callee = Function::new(
        "callee".into(),
        vec![param("x", 0, i32t()), param("p", 1, ptr(i32t()))],
        i32t(),
    );
    callee.internal_only = true;
    let read = push(&mut callee, InstKind::Load(ValueId(1)), i32t());
    let sum = push(&mut callee, InstKind::IAdd(ValueId(0), read), i32t());
    finish(&mut callee, Some(sum));
    let mut caller = Function::new("caller".into(), vec![], i32t());
    let slot = push(&mut caller, InstKind::Alloca(i32t()), ptr(i32t()));
    let four = const_i32(&mut caller, 4);
    push(&mut caller, InstKind::Store(four, slot), IrType::Void);
    let call = push(&mut caller, InstKind::Call(FuncRef::Internal(0), vec![four, slot]), i32t());
    finish(&mut caller, Some(call));
    let mut m = module_of(vec![callee, caller]);
    assert!(verify_module(&m).is_empty());
    assert!(ConstArgSpecialize { floats: evaluate }.run(&mut m));
    assert!(verify_module(&m).is_empty());
    let kinds: Vec<&InstKind> = m.functions[0].blocks[0].insts.iter().map(|i| &i.kind).collect();
    assert_eq!(kinds.len(), 3);
    assert!(matches!(kinds[0], InstKind::ConstInt(4, IntWidth::I32)));
    assert!(matches!(kinds[1], InstKind::ConstInt(4, IntWidth::I32)));
    assert!(matches!(kinds[2], InstKind::IAdd(_, _)));
}

#[test]
fn reassociating_keeps_modules_sound() {
    let mut f = Function::new("f".into(), vec![param("x", 0, f64t())], f64t());
    let next = f.create_block("next");
    let one = push(&mut f, InstKind::ConstFloat(1.0f64.to_bits(), FloatWidth::F64), f64t());
    let two = push(&mut f, InstKind::ConstFloat(2.0f64.to_bits(), FloatWidth::F64), f64t());
    let a = push(&mut f, InstKind::FAdd(ValueId(0), one), f64t());
    let entry = f.entry;
    f.block_mut(entry).terminator = Some(Terminator::Branch(next, vec![]));
    let b = push_in(&mut f, next, InstKind::FSub(a, one), f64t());
    let c = push_in(&mut f, next, InstKind::FAdd(a, two), f64t());
    let d = push_in(&mut f, next, InstKind::FMul(b, c), f64t());
    f.block_mut(next).terminator = Some(Terminator::Return(Some(d)));
    let mut m = module_of(vec![f]);
    assert!(verify_module(&m).is_empty());
    assert!(FastMathReassoc { floats: evaluate }.run(&mut m));
    assert!(verify_module(&m).is_empty());
    let g = &m.functions[0];
    match g.blocks[0].insts[0].kind {
        InstKind::ConstFloat(v, FloatWidth::F64) => assert_eq!(f64::from_bits(v), 3.0),
        _ => panic!("expected the new constant first"),
    }
    let three = g.blocks[0].insts[0].id;
    let last = &g.blocks[1].insts;
    assert_eq!(last.len(), 2);
    assert!(matches!(last[0].kind, InstKind::FAdd(ValueId(0), k) if k == three));
    assert!(matches!(last[1].kind, InstKind::FMul(ValueId(0), k) if k == c));
}

#[test]
fn operands_are_visited_once_each_and_in_order() {
    let mut kind = InstKind::Call(FuncRef::Indirect(ValueId(9)), vec![ValueId(4), ValueId(7)]);
    let visit = |mut seen: Vec<ValueId>, v: ValueId| {
        let place = seen.len() as u32;
        seen.push(v);
        (seen, ValueId(100 + place))
    };
    let seen = for_each_operand_mut(&mut kind, Vec::new(), &visit);
    assert_eq!(seen, vec![ValueId(9), ValueId(4), ValueId(7)]);
    assert_eq!(inst_uses(&kind), vec![ValueId(100), ValueId(101), ValueId(102)]);
    assert!(matches!(kind, InstKind::Call(FuncRef::Indirect(_), _)));

    let mut none = InstKind::ConstInt(3, IntWidth::I32);
    assert!(for_each_operand_mut(&mut none, Vec::new(), &visit).is_empty());

    let mut term = Terminator::CondBranch {
        cond: ValueId(1),
        true_dest: BlockId(1),
        true_args: vec![ValueId(2)],
        false_dest: BlockId(2),
        false_args: vec![ValueId(3), ValueId(1)],
    };
    let seen = for_each_terminator_operand_mut(&mut term, Vec::new(), &visit);
    assert_eq!(seen, vec![ValueId(1), ValueId(2), ValueId(3), ValueId(1)]);
    match term {
        Terminator::CondBranch { cond, true_args, false_args, true_dest, false_dest } => {
            assert_eq!(cond, ValueId(100));
            assert_eq!(true_args, vec![ValueId(101)]);
            assert_eq!(false_args, vec![ValueId(102), ValueId(103)]);
            assert_eq!((true_dest, false_dest), (BlockId(1), BlockId(2)));
        }
        _ => panic!("the terminator changed its kind"),
    }
}

#[test]
fn a_second_folding_run_changes_nothing_even_where_a_value_is_defined_twice() {
    let mut f = Function::new("f".into(), vec![], i32t());
    let zero = const_i32(&mut f, 0);
    let six = const_i32(&mut f, 6);
    let a = push(&mut f, InstKind::IAdd(zero, zero), i32t());
    let q = push(&mut f, InstKind::IDiv(six, a), i32t());
    let entry = f.entry;
    f.block_mut(entry).insts.push(Inst {
        id: a,
        kind: InstKind::ConstInt(2, IntWidth::I32),
        ty: i32t(),
        span: span(),
    });
    finish(&mut f, Some(q));
    let mut m = module_of(vec![f]);
    assert!(ConstFold { floats: evaluate }.run(&mut m));
    assert!(matches!(kind_at(&m, 2), InstKind::IAdd(_, _)));
    assert!(matches!(kind_at(&m, 3), InstKind::ConstInt(3, IntWidth::I32)));
    assert!(!ConstFold { floats: evaluate }.run(&mut m));
}

#[test]
fn unread_loads_go_and_volatile_stores_stay() {
    let mut f = Function::new("f".into(), vec![param("p", 0, ptr(i32t()))], IrType::Void);
    let v = const_i32(&mut f, 1);
    push(&mut f, InstKind::VolatileLoad(ValueId(0)), i32t());
    push(&mut f, InstKind::Load(ValueId(0)), i32t());
    push(&mut f, InstKind::VolatileStore(v, ValueId(0)), IrType::Void);
    finish(&mut f, None);
    let mut m = module_of(vec![f]);
    assert!(Dce.run(&mut m));
    assert_eq!(m.functions[0].blocks[0].insts.len(), 2);
    assert!(matches!(kind_at(&m, 1), InstKind::VolatileStore(_, _)));
}

#[test]
fn a_pure_function_that_loads_volatile_memory_need_not_be_called() {
    let mut callee = Function::new("g".into(), vec![param("p", 0, ptr(i32t()))], i32t());
    callee.is_pure = true;
    let v = push(&mut callee, InstKind::VolatileLoad(ValueId(0)), i32t());
    finish(&mut callee, Some(v));
    let mut caller = Function::new("f".into(), vec![param("p", 0, ptr(i32t()))], IrType::Void);
    push(&mut caller, InstKind::Call(FuncRef::Internal(1), vec![ValueId(0)]), i32t());
    finish(&mut caller, None);
    let mut m = module_of(vec![caller, callee]);
    assert!(Dce.run(&mut m));
    assert!(m.functions[0].blocks[0].insts.is_empty());
    assert_eq!(m.functions[1].blocks[0].insts.len(), 1);
}

#[test]
fn dead_stores_are_listed_in_order() {
    let mut f = Function::new("f".into(), vec![], IrType::Void);
    let slot = push(&mut f, InstKind::Alloca(i32t()), ptr(i32t()));
    let v = const_i32(&mut f, 1);
    for _ in 0..4 {
        push(&mut f, InstKind::Store(v, slot), IrType::Void);
    }
    finish(&mut f, None);
    let mut oracle = AliasOracle::new(&f, TargetLayout::LP64);
    assert_eq!(find_dead_stores(&f.blocks[0], &mut oracle), vec![2, 3, 4]);
}

#[test]
fn a_slot_that_a_call_may_also_write_holds_no_constant() {
    let mut callee = Function::new(
        "g".into(),
        vec![param("x", 0, ptr(i32t())), param("y", 1, ptr(i32t()))],
        i32t(),
    );
    callee.internal_only = true;
    let nine = const_i32(&mut callee, 9);
    push(&mut callee, InstKind::Store(nine, ValueId(1)), IrType::Void);
    let v = push(&mut callee, InstKind::Load(ValueId(0)), i32t());
    finish(&mut callee, Some(v));
    let mut caller = Function::new("f".into(), vec![], i32t());
    let slot = push(&mut caller, InstKind::Alloca(i32t()), ptr(i32t()));
    let a = const_i32(&mut caller, 5);
    push(&mut caller, InstKind::Store(a, slot), IrType::Void);
    let r = push(&mut caller, InstKind::Call(FuncRef::Internal(1), vec![slot, slot]), i32t());
    finish(&mut caller, Some(r));
    let mut m = module_of(vec![caller, callee]);
    assert!(!ConstArgSpecialize { floats: evaluate }.run(&mut m));
    assert_eq!(m.functions[1].blocks[0].insts.len(), 3);
}

#[test]
fn functions_without_an_entry_block_are_left_alone() {
    let mut callee = Function::new("g".into(), vec![param("x", 0, i32t())], i32t());
    callee.internal_only = true;
    callee.blocks.clear();
    let mut m = module_of(vec![callee]);
    assert!(!ConstArgSpecialize { floats: evaluate }.run(&mut m));
    assert!(!FastMathReassoc { floats: evaluate }.run(&mut m));
    assert!(m.functions[0].blocks.is_empty());
}

/// A loop that counts from 1 to 4, with checks of the counter against [1, 4] in
/// the header, the body and behind the loop.
fn checked_loop(branch_on_test: bool) -> (Function, BlockId, BlockId, BlockId) {
    let mut f = Function::new("f".into(), vec![param("c", 0, IrType::Bool)], IrType::Void);
    let header = f.create_block("header");
    let body = f.create_block("body");
    let exit = f.create_block("exit");
    let one = push(&mut f, InstKind::ConstInt(1, IntWidth::I64), int_type(IntWidth::I64));
    let four = push(&mut f, InstKind::ConstInt(4, IntWidth::I64), int_type(IntWidth::I64));
    let entry = f.entry;
    f.block_mut(entry).terminator = Some(Terminator::Branch(header, vec![one]));
    let iv = f.next_value_id();
    f.register_type(iv, int_type(IntWidth::I64));
    f.block_mut(header).params.push(BlockParam { id: iv, ty: int_type(IntWidth::I64) });
    let test = push_in(&mut f, header, InstKind::ICmp(CmpOp::Le, iv, four), IrType::Bool);
    for b in [header, body, exit] {
        let check = InstKind::RuntimeCall(RuntimeFunc::CheckBounds, vec![iv, one, four]);
        push_in(&mut f, b, check, IrType::Void);
    }
    f.block_mut(header).terminator = Some(Terminator::CondBranch {
        cond: if branch_on_test { test } else { ValueId(0) },
        true_dest: body,
        true_args: vec![],
        false_dest: exit,
        false_args: vec![],
    });
    let next = push_in(&mut f, body, InstKind::IAdd(iv, one), int_type(IntWidth::I64));
    f.block_mut(body).terminator = Some(Terminator::Branch(header, vec![next]));
    f.block_mut(exit).terminator = Some(Terminator::Return(None));
    (f, header, body, exit)
}

fn checks_in(f: &Function, b: BlockId) -> usize {
    f.block(b)
        .insts
        .iter()
        .filter(|i| matches!(i.kind, InstKind::RuntimeCall(RuntimeFunc::CheckBounds, _)))
        .count()
}

#[test]
fn checks_of_a_counter_go_only_where_it_is_within_its_bound() {
    let (f, header, body, exit) = checked_loop(true);
    let mut m = module_of(vec![f]);
    assert!(verify_module(&m).is_empty());
    assert!(Bce.run(&mut m));
    let g = &m.functions[0];
    assert_eq!(checks_in(g, header), 1);
    assert_eq!(checks_in(g, body), 0);
    assert_eq!(checks_in(g, exit), 1);
    assert!(!Bce.run(&mut m));
}

#[test]
fn checks_stay_where_the_comparison_does_not_control_the_loop() {
    let (f, header, body, exit) = checked_loop(false);
    let mut m = module_of(vec![f]);
    assert!(!Bce.run(&mut m));
    let g = &m.functions[0];
    assert_eq!((checks_in(g, header), checks_in(g, body), checks_in(g, exit)), (1, 1, 1));
}

#[test]
fn checks_go_on_one_side_of_a_header_that_stays_in_the_loop_on_both() {
    let (mut f, header, body, exit) = checked_loop(true);
    let other = f.create_block("other");
    let join = f.create_block("join");
    let iv = f.block(header).params[0].id;
    let one = f.blocks[0].insts[0].id;
    let four = f.blocks[0].insts[1].id;
    let next = f.block(body).insts.last().unwrap().id;
    f.block_mut(header).terminator = Some(Terminator::CondBranch {
        cond: f.block(header).insts[0].id,
        true_dest: body,
        true_args: vec![],
        false_dest: other,
        false_args: vec![],
    });
    for b in [other, join] {
        let check = InstKind::RuntimeCall(RuntimeFunc::CheckBounds, vec![iv, one, four]);
        push_in(&mut f, b, check, IrType::Void);
    }
    f.block_mut(body).insts.retain(|i| i.id != next);
    f.block_mut(body).terminator = Some(Terminator::Branch(join, vec![]));
    f.block_mut(other).terminator = Some(Terminator::CondBranch {
        cond: ValueId(0),
        true_dest: join,
        true_args: vec![],
        false_dest: exit,
        false_args: vec![],
    });
    let next = push_in(&mut f, join, InstKind::IAdd(iv, one), int_type(IntWidth::I64));
    f.block_mut(join).terminator = Some(Terminator::Branch(header, vec![next]));
    let mut m = module_of(vec![f]);
    assert!(verify_module(&m).is_empty());
    assert!(Bce.run(&mut m));
    let g = &m.functions[0];
    assert_eq!(checks_in(g, body), 0);
    assert_eq!(checks_in(g, other), 1);
    assert_eq!(checks_in(g, join), 1);
    assert_eq!(checks_in(g, exit), 1);
}
