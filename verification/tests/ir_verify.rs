use armfortas::ir::inst::{
    BlockId, BlockParam, CmpOp, Function, Global, GlobalInit, Inst, InstKind, Module, RuntimeFunc,
    Terminator, ValueId,
};
use armfortas::ir::types::{FloatWidth, IntWidth, IrType};
use armfortas::ir::verify::{vector_shape_error, verify_function, verify_module, VerifyError};
use armfortas::lexer::{Position, Span};
use armfortas::target::TargetLayout;

/// Appends instructions to a block of a function.
struct FuncBuilder<'a> {
    func: &'a mut Function,
    block: BlockId,
}

impl<'a> FuncBuilder<'a> {
    fn new(func: &'a mut Function, _layout: TargetLayout) -> Self {
        let block = func.entry;
        FuncBuilder { func, block }
    }

    fn emit(&mut self, kind: InstKind, ty: IrType) -> ValueId {
        let id = self.func.next_value_id();
        self.func.register_type(id, ty.clone());
        let pos = Position { line: 0, col: 0 };
        let span = Span { file_id: 0, start: pos, end: pos };
        self.func.block_mut(self.block).insts.push(Inst { id, kind, ty, span });
        id
    }

    fn type_of(&self, v: ValueId) -> IrType {
        self.func.value_type(v).expect("operand has a type")
    }

    fn const_int(&mut self, v: i128, w: IntWidth) -> ValueId {
        self.emit(InstKind::ConstInt(v, w), IrType::Int(w))
    }

    fn const_i32(&mut self, v: i32) -> ValueId {
        self.const_int(v as i128, IntWidth::I32)
    }

    fn const_i64(&mut self, v: i64) -> ValueId {
        self.const_int(v as i128, IntWidth::I64)
    }

    fn const_i128(&mut self, v: i128) -> ValueId {
        self.const_int(v, IntWidth::I128)
    }

    fn const_f32(&mut self, v: f32) -> ValueId {
        let bits = (v as f64).to_bits();
        self.emit(InstKind::ConstFloat(bits, FloatWidth::F32), IrType::Float(FloatWidth::F32))
    }

    fn const_f64(&mut self, v: f64) -> ValueId {
        let bits = v.to_bits();
        self.emit(InstKind::ConstFloat(bits, FloatWidth::F64), IrType::Float(FloatWidth::F64))
    }

    fn const_bool(&mut self, v: bool) -> ValueId {
        self.emit(InstKind::ConstBool(v), IrType::Bool)
    }

    fn const_string(&mut self, bytes: &[u8]) -> ValueId {
        let ty = IrType::Ptr(Box::new(IrType::Int(IntWidth::I8)));
        self.emit(InstKind::ConstString(bytes.to_vec()), ty)
    }

    fn iadd(&mut self, a: ValueId, b: ValueId) -> ValueId {
        let ty = self.type_of(a);
        self.emit(InstKind::IAdd(a, b), ty)
    }

    fn fadd(&mut self, a: ValueId, b: ValueId) -> ValueId {
        let ty = self.type_of(a);
        self.emit(InstKind::FAdd(a, b), ty)
    }

    fn vadd(&mut self, a: ValueId, b: ValueId) -> ValueId {
        let ty = self.type_of(a);
        self.emit(InstKind::VAdd(a, b), ty)
    }

    fn vload(&mut self, ptr: ValueId, ty: IrType) -> ValueId {
        self.emit(InstKind::VLoad(ptr), ty)
    }

    fn icmp(&mut self, op: CmpOp, a: ValueId, b: ValueId) -> ValueId {
        self.emit(InstKind::ICmp(op, a, b), IrType::Bool)
    }

    fn select(&mut self, cond: ValueId, a: ValueId, b: ValueId) -> ValueId {
        let ty = self.type_of(a);
        self.emit(InstKind::Select(cond, a, b), ty)
    }

    fn alloca(&mut self, ty: IrType) -> ValueId {
        self.emit(InstKind::Alloca(ty.clone()), IrType::Ptr(Box::new(ty)))
    }

    fn store(&mut self, v: ValueId, addr: ValueId) {
        self.emit(InstKind::Store(v, addr), IrType::Void);
    }

    fn runtime_call(&mut self, f: RuntimeFunc, args: Vec<ValueId>, ty: IrType) -> ValueId {
        self.emit(InstKind::RuntimeCall(f, args), ty)
    }

    fn emit_bogus_iadd(&mut self, a: ValueId, b: ValueId) -> ValueId {
        self.emit(InstKind::IAdd(a, b), IrType::Int(IntWidth::I32))
    }

    fn emit_bogus_store(&mut self, v: ValueId, addr: ValueId) {
        self.emit(InstKind::Store(v, addr), IrType::Void);
    }

    fn create_block(&mut self, name: &str) -> BlockId {
        self.func.create_block(name)
    }

    fn add_block_param(&mut self, block: BlockId, ty: IrType) -> ValueId {
        let id = self.func.next_value_id();
        self.func.register_type(id, ty.clone());
        self.func.block_mut(block).params.push(BlockParam { id, ty });
        id
    }

    fn set_block(&mut self, block: BlockId) {
        self.block = block;
    }

    fn end(&mut self, term: Terminator) {
        self.func.block_mut(self.block).terminator = Some(term);
    }

    fn branch(&mut self, dest: BlockId, args: Vec<ValueId>) {
        self.end(Terminator::Branch(dest, args));
    }

    fn cond_branch(
        &mut self,
        cond: ValueId,
        true_dest: BlockId,
        true_args: Vec<ValueId>,
        false_dest: BlockId,
        false_args: Vec<ValueId>,
    ) {
        self.end(Terminator::CondBranch { cond, true_dest, true_args, false_dest, false_args });
    }

    fn ret(&mut self, v: Option<ValueId>) {
        self.end(Terminator::Return(v));
    }

    fn ret_void(&mut self) {
        self.ret(None);
    }
}

#[test]
fn valid_simple_function() {
    let mut module = Module::new("test".into(), TargetLayout::LP64);
    let mut func = Function::new("main".into(), vec![], IrType::Void);
    {
        let mut b = FuncBuilder::new(&mut func, TargetLayout::LP64);
        let x = b.const_i32(10);
        let y = b.const_i32(20);
        let _z = b.iadd(x, y);
        b.ret_void();
    }
    module.add_function(func);
    let errs = verify_module(&module);
    assert!(errs.is_empty(), "errors: {:?}", errs);
}

#[test]
fn valid_runtime_call_signatures_are_accepted() {
    let mut func = Function::new("runtime_calls".into(), vec![], IrType::Void);
    {
        let mut b = FuncBuilder::new(&mut func, TargetLayout::LP64);
        let i32_value = b.const_i32(1);
        let i64_value = b.const_i64(1);
        let i128_value = b.const_i128(1);
        let f32_value = b.const_f32(1.0);
        let bytes = b.const_string(b"bytes");

        b.runtime_call(RuntimeFunc::PrintInt, vec![i32_value], IrType::Void);
        b.runtime_call(RuntimeFunc::PrintInt, vec![i64_value], IrType::Void);
        b.runtime_call(RuntimeFunc::PrintInt, vec![i128_value], IrType::Void);
        b.runtime_call(RuntimeFunc::PrintReal, vec![f32_value], IrType::Void);
        b.runtime_call(
            RuntimeFunc::PrintString,
            vec![bytes, i64_value],
            IrType::Void,
        );
        b.runtime_call(RuntimeFunc::PrintLogical, vec![i32_value], IrType::Void);
        b.runtime_call(RuntimeFunc::PrintNewline, vec![], IrType::Void);

        let allocation = b.runtime_call(
            RuntimeFunc::Allocate,
            vec![i64_value],
            IrType::Ptr(Box::new(IrType::Int(IntWidth::I8))),
        );
        b.runtime_call(RuntimeFunc::Deallocate, vec![allocation], IrType::Void);
        b.runtime_call(
            RuntimeFunc::StringConcat,
            vec![bytes, i64_value, bytes, i64_value],
            IrType::Ptr(Box::new(IrType::Int(IntWidth::I8))),
        );
        b.runtime_call(
            RuntimeFunc::StringCopy,
            vec![bytes, i64_value, bytes, i64_value],
            IrType::Void,
        );
        b.runtime_call(
            RuntimeFunc::StringCompare,
            vec![bytes, i64_value, bytes, i64_value],
            IrType::Int(IntWidth::I32),
        );
        b.runtime_call(RuntimeFunc::Stop, vec![], IrType::Void);
        b.runtime_call(RuntimeFunc::ErrorStop, vec![], IrType::Void);
        b.runtime_call(
            RuntimeFunc::CheckBounds,
            vec![i64_value, i64_value, i64_value],
            IrType::Void,
        );
        b.ret_void();
    }

    let errs = verify_function(&func);
    assert!(
        errs.is_empty(),
        "valid runtime ABI calls should verify, got: {errs:?}",
    );
}

#[test]
fn malformed_runtime_call_signatures_are_rejected() {
    let mut func = Function::new("runtime_calls".into(), vec![], IrType::Void);
    {
        let mut b = FuncBuilder::new(&mut func, TargetLayout::LP64);
        let boolean = b.const_bool(true);
        let i32_value = b.const_i32(1);
        let i64_value = b.const_i64(1);
        let f64_value = b.const_f64(1.0);
        let bytes = b.const_string(b"bytes");
        let byte_ptr = IrType::Ptr(Box::new(IrType::Int(IntWidth::I8)));

        b.runtime_call(RuntimeFunc::PrintInt, vec![], IrType::Void);
        b.runtime_call(RuntimeFunc::PrintReal, vec![f64_value], IrType::Void);
        b.runtime_call(
            RuntimeFunc::PrintString,
            vec![bytes, i32_value],
            IrType::Void,
        );
        b.runtime_call(RuntimeFunc::PrintLogical, vec![boolean], IrType::Void);
        b.runtime_call(RuntimeFunc::PrintNewline, vec![i32_value], IrType::Void);
        b.runtime_call(
            RuntimeFunc::Allocate,
            vec![i32_value],
            IrType::Int(IntWidth::I64),
        );
        b.runtime_call(RuntimeFunc::Deallocate, vec![i64_value], IrType::Void);
        b.runtime_call(
            RuntimeFunc::StringConcat,
            vec![bytes, bytes],
            byte_ptr.clone(),
        );
        b.runtime_call(
            RuntimeFunc::StringCopy,
            vec![bytes, i64_value, bytes, i64_value],
            byte_ptr,
        );
        b.runtime_call(
            RuntimeFunc::StringCompare,
            vec![bytes, i64_value, bytes, i64_value],
            IrType::Void,
        );
        b.runtime_call(RuntimeFunc::Stop, vec![], IrType::Int(IntWidth::I32));
        b.runtime_call(RuntimeFunc::ErrorStop, vec![i32_value], IrType::Void);
        b.runtime_call(
            RuntimeFunc::CheckBounds,
            vec![i64_value, i32_value, i64_value],
            IrType::Void,
        );
        b.ret_void();
    }

    let errs = verify_function(&func);
    for runtime_func in [
        "PrintInt",
        "PrintReal",
        "PrintString",
        "PrintLogical",
        "PrintNewline",
        "Allocate",
        "Deallocate",
        "StringConcat",
        "StringCopy",
        "StringCompare",
        "Stop",
        "ErrorStop",
        "CheckBounds",
    ] {
        assert!(
            errs.iter().any(|error| error.msg.contains(runtime_func)),
            "expected a {runtime_func} ABI diagnostic, got: {errs:?}",
        );
    }
}

#[test]
fn oversized_global_array_layout_is_rejected() {
    let mut module = Module::new("test".into(), TargetLayout::LP64);
    module.add_global(Global {
        name: "oversized".into(),
        ty: IrType::Array(Box::new(IrType::Int(IntWidth::I64)), 1_u64 << 61),
        initializer: Some(GlobalInit::Zero),
    });

    let errs = verify_module(&module);
    assert!(
        errs.iter().any(|error| {
            error.msg.contains("global 'oversized'")
                && error.msg.contains("overflows the target address space")
        }),
        "expected an oversized-global layout error, got: {errs:?}",
    );
}

#[test]
fn missing_terminator() {
    let func = Function::new("test".into(), vec![], IrType::Void);
    // Entry block has no terminator.
    let errs = verify_function(&func);
    assert!(errs.iter().any(|e| e.msg.contains("no terminator")));
}

#[test]
fn undefined_value() {
    let mut func = Function::new("test".into(), vec![], IrType::Void);
    {
        let mut b = FuncBuilder::new(&mut func, TargetLayout::LP64);
        // Use a ValueId that doesn't exist.
        let fake = ValueId(999);
        let real = b.const_i32(1);
        b.emit_bogus_iadd(fake, real);
        b.ret_void();
    }
    let errs = verify_function(&func);
    assert!(errs.iter().any(|e| e.msg.contains("%999")));
}

#[test]
fn entry_block_with_params_errors() {
    let mut func = Function::new("test".into(), vec![], IrType::Void);
    // Manually add a param to the entry block.
    func.blocks[0].params.push(BlockParam {
        id: ValueId(99),
        ty: IrType::Int(IntWidth::I32),
    });
    func.blocks[0].terminator = Some(Terminator::Return(None));
    let errs = verify_function(&func);
    assert!(errs.iter().any(|e| e.msg.contains("entry block")));
}

#[test]
fn back_edge_into_entry_errors() {
    // entry → body → entry  (illegal back-edge into entry).
    let mut func = Function::new("test".into(), vec![], IrType::Void);
    let body = func.create_block("body");
    func.block_mut(func.entry).terminator = Some(Terminator::Branch(body, vec![]));
    func.block_mut(body).terminator = Some(Terminator::Branch(func.entry, vec![]));
    let errs = verify_function(&func);
    assert!(
        errs.iter().any(|e| e.msg.contains("entry block")),
        "expected entry-back-edge error, got: {:?}",
        errs,
    );
}

#[test]
fn branch_arg_mismatch() {
    let mut func = Function::new("test".into(), vec![], IrType::Void);
    {
        let mut b = FuncBuilder::new(&mut func, TargetLayout::LP64);
        let target = b.create_block("target");
        b.add_block_param(target, IrType::Int(IntWidth::I32));
        // Branch to target with 0 args — but target expects 1.
        b.branch(target, vec![]);

        b.set_block(target);
        b.ret_void();
    }
    let errs = verify_function(&func);
    assert!(errs
        .iter()
        .any(|e| e.msg.contains("expected 1 args, got 0")));
}

#[test]
fn dangling_cfg_targets_are_reported_without_panicking() {
    let dangling = BlockId(999);

    let mut branch = Function::new("branch".into(), vec![], IrType::Void);
    branch.blocks[0].terminator = Some(Terminator::Branch(dangling, vec![]));
    let branch_errs = verify_function(&branch);
    assert!(
        branch_errs
            .iter()
            .any(|error| error.msg.contains("branches to undefined block 999")),
        "expected a dangling branch diagnostic, got: {branch_errs:?}",
    );

    let mut conditional = Function::new("conditional".into(), vec![], IrType::Void);
    let valid_conditional_target;
    {
        let mut b = FuncBuilder::new(&mut conditional, TargetLayout::LP64);
        let condition = b.const_bool(true);
        valid_conditional_target = b.create_block("valid");
        b.cond_branch(
            condition,
            dangling,
            vec![],
            valid_conditional_target,
            vec![],
        );
        b.set_block(valid_conditional_target);
        b.ret_void();
    }
    let conditional_errs = verify_function(&conditional);
    assert!(
        conditional_errs
            .iter()
            .any(|error| error.msg.contains("branches to undefined block 999")),
        "expected a dangling conditional-branch diagnostic, got: {conditional_errs:?}",
    );

    let mut switch = Function::new("switch".into(), vec![], IrType::Void);
    let selector;
    {
        let mut b = FuncBuilder::new(&mut switch, TargetLayout::LP64);
        selector = b.const_i32(1);
    }
    switch.blocks[0].terminator = Some(Terminator::Switch {
        selector,
        cases: vec![(1, dangling)],
        default: dangling,
    });
    let switch_errs = verify_function(&switch);
    assert_eq!(
        switch_errs
            .iter()
            .filter(|error| error.msg.contains("branches to undefined block 999"))
            .count(),
        2,
        "case and default edges should each be diagnosed: {switch_errs:?}",
    );
}

#[test]
fn integer_op_on_float_errors() {
    let mut func = Function::new("test".into(), vec![], IrType::Void);
    {
        let mut b = FuncBuilder::new(&mut func, TargetLayout::LP64);
        let a = b.const_f32(1.0);
        let c = b.const_f32(2.0);
        // Force an iadd on float values (bypass builder type checking).
        b.emit_bogus_iadd(a, c);
        b.ret_void();
    }
    let errs = verify_function(&func);
    assert!(errs.iter().any(|e| e.msg.contains("non-integer operand")));
}

#[test]
fn store_value_pointee_mismatch_errors() {
    // Store(i64_val, ptr<i32>) must be rejected
    // by the verifier — codegen has no implicit narrowing
    // and would silently truncate.
    let mut func = Function::new("test".into(), vec![], IrType::Void);
    {
        let mut b = FuncBuilder::new(&mut func, TargetLayout::LP64);
        let val = b.const_i64(123);
        let addr = b.alloca(IrType::Int(IntWidth::I32));
        b.store(val, addr);
        b.ret_void();
    }
    let errs = verify_function(&func);
    assert!(
        errs.iter()
            .any(|e| e.msg.contains("doesn't match pointee type")),
        "expected pointee type mismatch error, got: {:?}",
        errs,
    );
}

#[test]
fn int_op_width_mismatch_errors() {
    // IMul(i32, i64) should be rejected — codegen has no
    // implicit width promotion and the verifier is the last
    // line of defense before mismatched widths reach isel.
    let mut func = Function::new("test".into(), vec![], IrType::Void);
    {
        let mut b = FuncBuilder::new(&mut func, TargetLayout::LP64);
        let a = b.const_i32(1);
        let c = b.const_i64(2);
        b.emit_bogus_iadd(a, c);
        b.ret_void();
    }
    let errs = verify_function(&func);
    assert!(
        errs.iter().any(|e| e.msg.contains("width mismatch")),
        "expected width mismatch, got: {:?}",
        errs,
    );
}

#[test]
fn scalar_arithmetic_result_type_must_match_operands() {
    let mut func = Function::new("test".into(), vec![], IrType::Void);
    let (integer_result, float_result);
    {
        let mut b = FuncBuilder::new(&mut func, TargetLayout::LP64);
        let integer_lhs = b.const_i32(1);
        let integer_rhs = b.const_i32(2);
        integer_result = b.iadd(integer_lhs, integer_rhs);
        let float_lhs = b.const_f32(1.0);
        let float_rhs = b.const_f32(2.0);
        float_result = b.fadd(float_lhs, float_rhs);
        b.ret_void();
    }

    for inst in &mut func.blocks[0].insts {
        if inst.id == integer_result {
            inst.ty = IrType::Int(IntWidth::I64);
        } else if inst.id == float_result {
            inst.ty = IrType::Float(FloatWidth::F64);
        }
    }
    func.rebuild_type_cache();

    let errs = verify_function(&func);
    assert!(
        errs.iter().any(|error| {
            error
                .msg
                .contains(&format!("integer op %{}", integer_result.0))
                && error.msg.contains("result type i64")
                && error.msg.contains("operand type i32")
        }),
        "expected the integer result-type mismatch to be rejected, got: {errs:?}",
    );
    assert!(
        errs.iter().any(|error| {
            error.msg.contains(&format!("float op %{}", float_result.0))
                && error.msg.contains("result type f64")
                && error.msg.contains("operand type f32")
        }),
        "expected the float result-type mismatch to be rejected, got: {errs:?}",
    );
}

#[test]
fn return_form_and_type_must_match_function_signature() {
    let mut wrong_type = Function::new("wrong_type".into(), vec![], IrType::Int(IntWidth::I64));
    {
        let mut b = FuncBuilder::new(&mut wrong_type, TargetLayout::LP64);
        let value = b.const_i32(1);
        b.ret(Some(value));
    }
    let wrong_type_errs = verify_function(&wrong_type);
    assert!(
        wrong_type_errs.iter().any(|error| {
            error.msg.contains("return type mismatch")
                && error.msg.contains("expected i64")
                && error.msg.contains("got i32")
        }),
        "expected the returned value type to be checked, got: {wrong_type_errs:?}",
    );

    let mut missing_value =
        Function::new("missing_value".into(), vec![], IrType::Int(IntWidth::I32));
    missing_value.blocks[0].terminator = Some(Terminator::Return(None));
    let missing_value_errs = verify_function(&missing_value);
    assert!(
        missing_value_errs.iter().any(|error| error
            .msg
            .contains("non-void function must return a value of type i32")),
        "expected a missing return value to be rejected, got: {missing_value_errs:?}",
    );

    let mut unexpected_value = Function::new("unexpected_value".into(), vec![], IrType::Void);
    {
        let mut b = FuncBuilder::new(&mut unexpected_value, TargetLayout::LP64);
        let value = b.const_i32(1);
        b.ret(Some(value));
    }
    let unexpected_value_errs = verify_function(&unexpected_value);
    assert!(
        unexpected_value_errs
            .iter()
            .any(|error| error.msg.contains("void function must not return a value")),
        "expected a value return from void to be rejected, got: {unexpected_value_errs:?}",
    );

    let mut valid = Function::new("valid".into(), vec![], IrType::Int(IntWidth::I32));
    {
        let mut b = FuncBuilder::new(&mut valid, TargetLayout::LP64);
        let value = b.const_i32(1);
        b.ret(Some(value));
    }
    let valid_errs = verify_function(&valid);
    assert!(
        valid_errs.is_empty(),
        "matching typed return should remain valid, got: {valid_errs:?}",
    );
}

#[test]
fn type_consistency_survives_missing_cache_entries() {
    // Width-mismatched iadd inserted directly into a block (i.e.
    // bypassing the builder) used to slip past the type checker
    // because the type cache hadn't been refreshed and value_type
    // returned None for both operands. With on-demand fallback
    // the verifier walks the instruction list and still rejects
    // the bogus IR.
    let mut func = Function::new("test".into(), vec![], IrType::Void);
    let span = Span {
        file_id: 0,
        start: Position { line: 0, col: 0 },
        end: Position { line: 0, col: 0 },
    };
    // %1: i32, %2: i64 — distinct widths, no cache update.
    func.blocks[0].insts.push(Inst {
        id: ValueId(1),
        kind: InstKind::ConstInt(1, IntWidth::I32),
        ty: IrType::Int(IntWidth::I32),
        span,
    });
    func.blocks[0].insts.push(Inst {
        id: ValueId(2),
        kind: InstKind::ConstInt(2, IntWidth::I64),
        ty: IrType::Int(IntWidth::I64),
        span,
    });
    func.blocks[0].insts.push(Inst {
        id: ValueId(3),
        kind: InstKind::IAdd(ValueId(1), ValueId(2)),
        ty: IrType::Int(IntWidth::I32),
        span,
    });
    func.blocks[0].terminator = Some(Terminator::Return(None));
    // Note: type_cache is the constructor-time snapshot — it
    // does NOT contain the manually-inserted instructions.
    let errs = verify_function(&func);
    assert!(
        errs.iter().any(|e| e.msg.contains("width mismatch")),
        "expected width mismatch even without cache: {:?}",
        errs,
    );
}

#[test]
fn present_but_stale_type_cache_entry_is_rejected() {
    let mut func = Function::new("test".into(), vec![], IrType::Void);
    let stale_value;
    {
        let mut b = FuncBuilder::new(&mut func, TargetLayout::LP64);
        let lhs = b.const_i32(1);
        let rhs = b.const_i32(2);
        stale_value = b.iadd(lhs, rhs);
        let zero = b.const_i32(0);
        let _use_stale_value = b.iadd(stale_value, zero);
        b.ret_void();
    }

    let defining_inst = func.blocks[0]
        .insts
        .iter_mut()
        .find(|inst| inst.id == stale_value)
        .expect("builder emitted the stale-cache witness");
    assert_eq!(defining_inst.ty, IrType::Int(IntWidth::I32));
    defining_inst.ty = IrType::Int(IntWidth::I64);

    let errs = verify_function(&func);
    assert!(
        errs.iter().any(|error| {
            error.msg.contains(&format!("value %{}", stale_value.0))
                && error.msg.contains("type cache")
                && error.msg.contains("i32")
                && error.msg.contains("i64")
        }),
        "expected the stale present cache entry to be rejected, got: {errs:?}",
    );
    assert_eq!(
        errs.iter()
            .filter(|error| error.msg.contains("type cache"))
            .count(),
        1,
        "one stale definition should produce one cache diagnostic: {errs:?}",
    );

    func.rebuild_type_cache();
    let rebuilt_errs = verify_function(&func);
    assert!(
        rebuilt_errs
            .iter()
            .all(|error| !error.msg.contains("type cache")),
        "rebuilding should restore cache consistency: {rebuilt_errs:?}",
    );
    assert!(
        rebuilt_errs
            .iter()
            .any(|error| error.msg.contains("width mismatch")),
        "verification should expose the underlying malformed iadd after rebuilding: \
         {rebuilt_errs:?}",
    );
}

#[test]
fn valid_branch_with_args() {
    let mut func = Function::new("test".into(), vec![], IrType::Void);
    {
        let mut b = FuncBuilder::new(&mut func, TargetLayout::LP64);
        let target = b.create_block("target");
        let _p = b.add_block_param(target, IrType::Int(IntWidth::I32));
        let val = b.const_i32(42);
        b.branch(target, vec![val]);

        b.set_block(target);
        b.ret_void();
    }
    let errs = verify_function(&func);
    assert!(errs.is_empty(), "errors: {:?}", errs);
}

#[test]
fn valid_cond_branch() {
    let mut func = Function::new("test".into(), vec![], IrType::Void);
    {
        let mut b = FuncBuilder::new(&mut func, TargetLayout::LP64);
        let cond = b.const_bool(true);
        let bb_t = b.create_block("then");
        let bb_f = b.create_block("else");
        b.cond_branch(cond, bb_t, vec![], bb_f, vec![]);

        b.set_block(bb_t);
        b.ret_void();
        b.set_block(bb_f);
        b.ret_void();
    }
    let errs = verify_function(&func);
    assert!(errs.is_empty(), "errors: {:?}", errs);
}

#[test]
fn cond_branch_requires_bool_condition() {
    let mut func = Function::new("test".into(), vec![], IrType::Void);
    {
        let mut b = FuncBuilder::new(&mut func, TargetLayout::LP64);
        let cond = b.const_i32(1);
        let bb_t = b.create_block("then");
        let bb_f = b.create_block("else");
        b.cond_branch(cond, bb_t, vec![], bb_f, vec![]);

        b.set_block(bb_t);
        b.ret_void();
        b.set_block(bb_f);
        b.ret_void();
    }
    let errs = verify_function(&func);
    assert!(
        errs.iter()
            .any(|e| e.msg.contains("condition must be Bool")),
        "expected non-Bool branch condition error, got: {:?}",
        errs,
    );
}

#[test]
fn select_requires_bool_condition() {
    let mut func = Function::new("test".into(), vec![], IrType::Void);
    {
        let mut b = FuncBuilder::new(&mut func, TargetLayout::LP64);
        let cond = b.const_i32(1);
        let true_val = b.const_i32(2);
        let false_val = b.const_i32(3);
        b.select(cond, true_val, false_val);
        b.ret_void();
    }
    let errs = verify_function(&func);
    assert!(
        errs.iter()
            .any(|e| e.msg.contains("select condition must be Bool")),
        "expected non-Bool select condition error, got: {:?}",
        errs,
    );
}

#[test]
fn icmp_requires_matching_integer_operands() {
    let mut func = Function::new("test".into(), vec![], IrType::Void);
    {
        let mut b = FuncBuilder::new(&mut func, TargetLayout::LP64);
        let wide = b.const_int(1, IntWidth::I128);
        let narrow = b.const_i32(1);
        b.icmp(CmpOp::Eq, wide, narrow);
        b.ret_void();
    }
    let errs = verify_function(&func);
    assert!(
        errs.iter()
            .any(|e| e.msg.contains("integer compare operand type mismatch")),
        "expected integer compare type mismatch, got: {:?}",
        errs,
    );
}

#[test]
fn store_to_non_pointer_errors() {
    let mut func = Function::new("test".into(), vec![], IrType::Void);
    {
        let mut b = FuncBuilder::new(&mut func, TargetLayout::LP64);
        let val = b.const_i32(42);
        let not_ptr = b.const_i32(0); // not a pointer
                                      // Force a store to non-pointer.
        b.emit_bogus_store(val, not_ptr);
        b.ret_void();
    }
    let errs = verify_function(&func);
    assert!(errs.iter().any(|e| e.msg.contains("non-pointer")));
}

#[test]
fn dominance_cross_block_violation() {
    // Value defined in block B used in block A that B doesn't dominate.
    let mut func = Function::new("test".into(), vec![], IrType::Void);
    {
        let mut b = FuncBuilder::new(&mut func, TargetLayout::LP64);
        let bb_a = b.create_block("block_a");
        let bb_b = b.create_block("block_b");

        // Entry branches to A.
        b.branch(bb_a, vec![]);

        // Block A uses a value from block B (which it can't reach yet).
        b.set_block(bb_a);
        // Manually insert a use of a value that will be defined in block B.
        let future_val = ValueId(100);
        b.emit_bogus_iadd(future_val, future_val);
        b.branch(bb_b, vec![]);

        // Block B defines the value.
        b.set_block(bb_b);
        let _v = b.const_i32(42); // This gets some ID, but we used 100 above.
        b.ret_void();
    }
    // Manually inject the value definition in block B with the ID we referenced.
    let span = Span {
        file_id: 0,
        start: Position { line: 0, col: 0 },
        end: Position { line: 0, col: 0 },
    };
    func.blocks[2].insts.insert(
        0,
        Inst {
            id: ValueId(100),
            kind: InstKind::ConstInt(99, IntWidth::I32),
            ty: IrType::Int(IntWidth::I32),
            span,
        },
    );
    let errs = verify_function(&func);
    assert!(
        errs.iter().any(|e| e.msg.contains("does not dominate")),
        "expected dominance error, got: {:?}",
        errs
    );
}

#[test]
fn dominance_same_block_order_violation() {
    // Use a value before it's defined in the same block.
    let mut func = Function::new("test".into(), vec![], IrType::Void);
    let span = Span {
        file_id: 0,
        start: Position { line: 0, col: 0 },
        end: Position { line: 0, col: 0 },
    };

    // Manually construct: %1 = iadd %0, %0 then %0 = const_int 42
    // (use of %0 before its definition)
    func.blocks[0].insts.push(Inst {
        id: ValueId(1),
        kind: InstKind::IAdd(ValueId(0), ValueId(0)),
        ty: IrType::Int(IntWidth::I32),
        span,
    });
    func.blocks[0].insts.push(Inst {
        id: ValueId(0),
        kind: InstKind::ConstInt(42, IntWidth::I32),
        ty: IrType::Int(IntWidth::I32),
        span,
    });
    func.blocks[0].terminator = Some(Terminator::Return(None));
    let errs = verify_function(&func);
    assert!(
        errs.iter()
            .any(|e| e.msg.contains("used before its definition")),
        "expected same-block order error, got: {:?}",
        errs
    );
}

#[test]
fn dominance_valid_loop() {
    // A valid loop: entry → header → body → header. Block params carry the value.
    let mut func = Function::new("test".into(), vec![], IrType::Void);
    {
        let mut b = FuncBuilder::new(&mut func, TargetLayout::LP64);
        let header = b.create_block("header");
        let i_param = b.add_block_param(header, IrType::Int(IntWidth::I32));
        let init = b.const_i32(0);
        b.branch(header, vec![init]);

        b.set_block(header);
        let one = b.const_i32(1);
        let next = b.iadd(i_param, one);
        let limit = b.const_i32(10);
        let done = b.icmp(CmpOp::Ge, next, limit);
        let exit = b.create_block("exit");
        b.cond_branch(done, exit, vec![], header, vec![next]);

        b.set_block(exit);
        b.ret_void();
    }
    let errs = verify_function(&func);
    assert!(errs.is_empty(), "valid loop should pass, got: {:?}", errs);
}

#[test]
fn duplicate_value_id_errors() {
    let mut func = Function::new("test".into(), vec![], IrType::Void);
    // Manually push two instructions with the same ID.
    let span = Span {
        file_id: 0,
        start: Position { line: 0, col: 0 },
        end: Position { line: 0, col: 0 },
    };
    func.blocks[0].insts.push(Inst {
        id: ValueId(0),
        kind: InstKind::ConstInt(1, IntWidth::I32),
        ty: IrType::Int(IntWidth::I32),
        span,
    });
    func.blocks[0].insts.push(Inst {
        id: ValueId(0),
        kind: InstKind::ConstInt(2, IntWidth::I32),
        ty: IrType::Int(IntWidth::I32),
        span,
    });
    func.blocks[0].terminator = Some(Terminator::Return(None));
    let errs = verify_function(&func);
    assert!(errs.iter().any(|e| e.msg.contains("duplicate value ID")));
}

#[test]
fn duplicate_block_id_errors() {
    let mut func = Function::new("test".into(), vec![], IrType::Void);
    let first = func.create_block("first");
    let _second = func.create_block("second");
    for block in &mut func.blocks {
        block.terminator = Some(Terminator::Return(None));
    }

    func.blocks[2].id = first;

    let errs = verify_function(&func);
    assert!(
        errs.iter().any(|error| error
            .msg
            .contains(&format!("duplicate block ID {}", first.0))),
        "expected duplicate block ID {first:?} to be rejected, got: {errs:?}",
    );
}

// ---- SIMD vector type / verify tests ----

fn verify_vadd_with_type(ty: IrType) -> Vec<VerifyError> {
    let mut func = Function::new("vector_add".into(), vec![], IrType::Void);
    {
        let mut b = FuncBuilder::new(&mut func, TargetLayout::LP64);
        let (lhs, rhs) = if matches!(&ty, IrType::Vector { .. }) {
            let lhs_ptr = b.alloca(ty.clone());
            let rhs_ptr = b.alloca(ty.clone());
            (b.vload(lhs_ptr, ty.clone()), b.vload(rhs_ptr, ty.clone()))
        } else {
            (b.const_i32(1), b.const_i32(2))
        };
        b.vadd(lhs, rhs);
        b.ret_void();
    }
    verify_function(&func)
}

#[test]
fn vector_arithmetic_accepts_backend_dispatch_shapes() {
    for ty in [
        IrType::Vector {
            lanes: 4,
            elem: Box::new(IrType::Int(IntWidth::I32)),
        },
        IrType::Vector {
            lanes: 2,
            elem: Box::new(IrType::Int(IntWidth::I64)),
        },
        IrType::Vector {
            lanes: 4,
            elem: Box::new(IrType::Float(FloatWidth::F32)),
        },
        IrType::Vector {
            lanes: 2,
            elem: Box::new(IrType::Float(FloatWidth::F64)),
        },
    ] {
        let errs = verify_vadd_with_type(ty.clone());
        assert!(
            errs.is_empty(),
            "expected backend-dispatched vector-arithmetic shape {ty:?} to verify, got: {errs:?}",
        );
    }
}

#[test]
fn vector_arithmetic_rejects_shapes_without_backend_dispatch() {
    for ty in [
        IrType::Vector {
            lanes: 16,
            elem: Box::new(IrType::Int(IntWidth::I8)),
        },
        IrType::Vector {
            lanes: 8,
            elem: Box::new(IrType::Int(IntWidth::I16)),
        },
        IrType::Int(IntWidth::I32),
    ] {
        let errs = verify_vadd_with_type(ty.clone());
        assert!(
            errs.iter().any(|error| {
                error.msg.contains("vector arithmetic") && error.msg.contains(&ty.display())
            }),
            "expected unsupported vector-arithmetic shape {ty:?} to be rejected, got: {errs:?}",
        );
    }
}

#[test]
fn vector_shape_4xi32_ok() {
    assert!(vector_shape_error(&IrType::Vector {
        lanes: 4,
        elem: Box::new(IrType::Int(IntWidth::I32)),
    })
    .is_none());
}

#[test]
fn vector_shape_2xf64_ok() {
    assert!(vector_shape_error(&IrType::Vector {
        lanes: 2,
        elem: Box::new(IrType::Float(FloatWidth::F64)),
    })
    .is_none());
}

#[test]
fn vector_shape_3xi32_rejected() {
    // 3 lanes is not a NEON shape.
    assert!(vector_shape_error(&IrType::Vector {
        lanes: 3,
        elem: Box::new(IrType::Int(IntWidth::I32)),
    })
    .is_some());
}

#[test]
fn vector_shape_8xi32_rejected_for_total_width() {
    // 8 × 32 = 256 bits, > NEON 128b.
    assert!(vector_shape_error(&IrType::Vector {
        lanes: 8,
        elem: Box::new(IrType::Int(IntWidth::I32)),
    })
    .is_some());
}

#[test]
fn vector_type_displays_with_angle_bracket_form() {
    let ty = IrType::Vector {
        lanes: 4,
        elem: Box::new(IrType::Int(IntWidth::I32)),
    };
    assert_eq!(ty.display(), "<4 x i32>");
}

#[test]
fn vector_type_size_bytes_is_16() {
    let ty = IrType::Vector {
        lanes: 2,
        elem: Box::new(IrType::Float(FloatWidth::F64)),
    };
    assert_eq!(ty.size_bytes(&TargetLayout::LP64), 16);
}
