//! Instructions, blocks, functions and modules of the IR.
//!
//! Each executable type has a mathematical model, its view, in which vectors
//! and strings are sequences.

use crate::ids::{copy_list, same_id, Id, IdMap};
use crate::ir::types::{FloatWidth, IntWidth, IrType};
use crate::lexer::Span;
use crate::target::TargetLayout;
use vstd::prelude::*;

verus! {

/// Names an SSA value within a function.
#[derive(Debug, Clone, Copy, PartialEq, Eq, Hash, PartialOrd, Ord, Structural)]
pub struct ValueId(pub u32);

/// Names a basic block within a function.
#[derive(Debug, Clone, Copy, PartialEq, Eq, Hash, PartialOrd, Ord, Structural)]
pub struct BlockId(pub u32);

impl Id for ValueId {
    open spec fn key(self) -> u32 {
        self.0
    }

    proof fn key_injective(a: Self, b: Self) {
    }

    fn raw(self) -> (r: u32) {
        self.0
    }
}

impl Id for BlockId {
    open spec fn key(self) -> u32 {
        self.0
    }

    proof fn key_injective(a: Self, b: Self) {
    }

    fn raw(self) -> (r: u32) {
        self.0
    }
}

/// The six comparisons.
#[derive(Debug, Clone, Copy, PartialEq, Eq, Hash, Structural)]
pub enum CmpOp {
    Eq,
    Ne,
    Lt,
    Le,
    Gt,
    Ge,
}

/// Entry points of the runtime library that the IR calls by name.
#[derive(Debug, Clone, Copy, PartialEq, Eq, Hash, Structural)]
pub enum RuntimeFunc {
    PrintInt,
    PrintReal,
    PrintString,
    PrintLogical,
    PrintNewline,
    Allocate,
    Deallocate,
    StringConcat,
    StringCopy,
    StringCompare,
    Stop,
    ErrorStop,
    CheckBounds,
}

/// What a call calls.
#[derive(Debug)]
pub enum FuncRef {
    /// A function of the same module, by index.
    Internal(u32),
    /// A function outside the module, by symbol name.
    External(String),
    /// A function pointer held in a value.
    Indirect(ValueId),
}

impl Clone for FuncRef {
    fn clone(&self) -> (r: Self)
        ensures
            match (*self, r) {
                (FuncRef::Internal(a), FuncRef::Internal(b)) => a == b,
                (FuncRef::External(a), FuncRef::External(b)) => a@ == b@,
                (FuncRef::Indirect(a), FuncRef::Indirect(b)) => a == b,
                _ => false,
            },
    {
        match self {
            FuncRef::Internal(index) => FuncRef::Internal(*index),
            FuncRef::External(name) => FuncRef::External(name.clone()),
            FuncRef::Indirect(target) => FuncRef::Indirect(*target),
        }
    }
}

/// What an instruction does.
#[derive(Debug)]
pub enum InstKind {
    // Constants. Floating-point constants are bit patterns of the 64-bit format.
    ConstInt(i128, IntWidth),
    ConstFloat(u64, FloatWidth),
    ConstBool(bool),
    ConstString(Vec<u8>),
    Undef(IrType),
    // Integer arithmetic.
    IAdd(ValueId, ValueId),
    ISub(ValueId, ValueId),
    IMul(ValueId, ValueId),
    IDiv(ValueId, ValueId),
    IMod(ValueId, ValueId),
    INeg(ValueId),
    // Floating-point arithmetic.
    FAdd(ValueId, ValueId),
    FSub(ValueId, ValueId),
    FMul(ValueId, ValueId),
    FDiv(ValueId, ValueId),
    FPow(ValueId, ValueId),
    FNeg(ValueId),
    FAbs(ValueId),
    FSqrt(ValueId),
    // Comparisons and logic.
    ICmp(CmpOp, ValueId, ValueId),
    FCmp(CmpOp, ValueId, ValueId),
    And(ValueId, ValueId),
    Or(ValueId, ValueId),
    Not(ValueId),
    Select(ValueId, ValueId, ValueId),
    // Bit operations.
    BitAnd(ValueId, ValueId),
    BitOr(ValueId, ValueId),
    BitXor(ValueId, ValueId),
    BitNot(ValueId),
    Shl(ValueId, ValueId),
    LShr(ValueId, ValueId),
    AShr(ValueId, ValueId),
    CountLeadingZeros(ValueId),
    CountTrailingZeros(ValueId),
    PopCount(ValueId),
    // Conversions. The flag of `IntExtend` says whether the sign is extended.
    IntToFloat(ValueId, FloatWidth),
    FloatToInt(ValueId, IntWidth),
    FloatExtend(ValueId, FloatWidth),
    FloatTrunc(ValueId, FloatWidth),
    IntExtend(ValueId, IntWidth, bool),
    IntTrunc(ValueId, IntWidth),
    PtrToInt(ValueId),
    IntToPtr(ValueId, IrType),
    // Memory. A store names the value first, then the address.
    Alloca(IrType),
    GlobalAddr(String),
    Load(ValueId),
    Store(ValueId, ValueId),
    VolatileLoad(ValueId),
    VolatileStore(ValueId, ValueId),
    GetElementPtr(ValueId, Vec<ValueId>),
    // Calls.
    Call(FuncRef, Vec<ValueId>),
    RuntimeCall(RuntimeFunc, Vec<ValueId>),
    // Aggregates.
    ExtractField(ValueId, u32),
    InsertField(ValueId, u32, ValueId),
    // Vectors.
    VAdd(ValueId, ValueId),
    VSub(ValueId, ValueId),
    VMul(ValueId, ValueId),
    VDiv(ValueId, ValueId),
    VMin(ValueId, ValueId),
    VMax(ValueId, ValueId),
    VNeg(ValueId),
    VAbs(ValueId),
    VSqrt(ValueId),
    VFma(ValueId, ValueId, ValueId),
    VSelect(ValueId, ValueId, ValueId),
    VICmp(CmpOp, ValueId, ValueId),
    VFCmp(CmpOp, ValueId, ValueId),
    VLoad(ValueId),
    VStore(ValueId, ValueId),
    VBitcast(ValueId),
    VExtract(ValueId, u8),
    VInsert(ValueId, u8, ValueId),
    VBroadcast(ValueId),
    VReduceSum(ValueId),
    VReduceMin(ValueId),
    VReduceMax(ValueId),
}

/// An instruction without its operands: the operation and its immediate data.
pub enum Op {
    ConstInt(i128, IntWidth),
    ConstFloat(u64, FloatWidth),
    ConstBool(bool),
    ConstString(Seq<u8>),
    Undef(IrType),
    IAdd,
    ISub,
    IMul,
    IDiv,
    IMod,
    INeg,
    FAdd,
    FSub,
    FMul,
    FDiv,
    FPow,
    FNeg,
    FAbs,
    FSqrt,
    ICmp(CmpOp),
    FCmp(CmpOp),
    And,
    Or,
    Not,
    Select,
    BitAnd,
    BitOr,
    BitXor,
    BitNot,
    Shl,
    LShr,
    AShr,
    CountLeadingZeros,
    CountTrailingZeros,
    PopCount,
    IntToFloat(FloatWidth),
    FloatToInt(IntWidth),
    FloatExtend(FloatWidth),
    FloatTrunc(FloatWidth),
    IntExtend(IntWidth, bool),
    IntTrunc(IntWidth),
    PtrToInt,
    IntToPtr(IrType),
    Alloca(IrType),
    GlobalAddr(Seq<char>),
    Load,
    Store,
    VolatileLoad,
    VolatileStore,
    GetElementPtr,
    CallInternal(u32),
    CallExternal(Seq<char>),
    CallIndirect,
    RuntimeCall(RuntimeFunc),
    ExtractField(u32),
    InsertField(u32),
    VAdd,
    VSub,
    VMul,
    VDiv,
    VMin,
    VMax,
    VNeg,
    VAbs,
    VSqrt,
    VFma,
    VSelect,
    VICmp(CmpOp),
    VFCmp(CmpOp),
    VLoad,
    VStore,
    VBitcast,
    VExtract(u8),
    VInsert(u8),
    VBroadcast,
    VReduceSum,
    VReduceMin,
    VReduceMax,
}

/// An instruction kind as an operation applied to operands.
pub struct KindView {
    pub op: Op,
    pub args: Seq<ValueId>,
}

impl InstKind {
    /// The operation and the operands, in the order in which they are read.
    pub open spec fn view(&self) -> KindView {
        match *self {
            InstKind::ConstInt(x, y) => KindView { op: Op::ConstInt(x, y), args: Seq::empty() },
            InstKind::ConstFloat(x, y) => KindView { op: Op::ConstFloat(x, y), args: Seq::empty() },
            InstKind::ConstBool(x) => KindView { op: Op::ConstBool(x), args: Seq::empty() },
            InstKind::ConstString(x) => KindView { op: Op::ConstString(x@), args: Seq::empty() },
            InstKind::Undef(x) => KindView { op: Op::Undef(x), args: Seq::empty() },
            InstKind::IAdd(a, b) => KindView { op: Op::IAdd, args: seq![a, b] },
            InstKind::ISub(a, b) => KindView { op: Op::ISub, args: seq![a, b] },
            InstKind::IMul(a, b) => KindView { op: Op::IMul, args: seq![a, b] },
            InstKind::IDiv(a, b) => KindView { op: Op::IDiv, args: seq![a, b] },
            InstKind::IMod(a, b) => KindView { op: Op::IMod, args: seq![a, b] },
            InstKind::INeg(a) => KindView { op: Op::INeg, args: seq![a] },
            InstKind::FAdd(a, b) => KindView { op: Op::FAdd, args: seq![a, b] },
            InstKind::FSub(a, b) => KindView { op: Op::FSub, args: seq![a, b] },
            InstKind::FMul(a, b) => KindView { op: Op::FMul, args: seq![a, b] },
            InstKind::FDiv(a, b) => KindView { op: Op::FDiv, args: seq![a, b] },
            InstKind::FPow(a, b) => KindView { op: Op::FPow, args: seq![a, b] },
            InstKind::FNeg(a) => KindView { op: Op::FNeg, args: seq![a] },
            InstKind::FAbs(a) => KindView { op: Op::FAbs, args: seq![a] },
            InstKind::FSqrt(a) => KindView { op: Op::FSqrt, args: seq![a] },
            InstKind::ICmp(x, a, b) => KindView { op: Op::ICmp(x), args: seq![a, b] },
            InstKind::FCmp(x, a, b) => KindView { op: Op::FCmp(x), args: seq![a, b] },
            InstKind::And(a, b) => KindView { op: Op::And, args: seq![a, b] },
            InstKind::Or(a, b) => KindView { op: Op::Or, args: seq![a, b] },
            InstKind::Not(a) => KindView { op: Op::Not, args: seq![a] },
            InstKind::Select(a, b, c) => KindView { op: Op::Select, args: seq![a, b, c] },
            InstKind::BitAnd(a, b) => KindView { op: Op::BitAnd, args: seq![a, b] },
            InstKind::BitOr(a, b) => KindView { op: Op::BitOr, args: seq![a, b] },
            InstKind::BitXor(a, b) => KindView { op: Op::BitXor, args: seq![a, b] },
            InstKind::BitNot(a) => KindView { op: Op::BitNot, args: seq![a] },
            InstKind::Shl(a, b) => KindView { op: Op::Shl, args: seq![a, b] },
            InstKind::LShr(a, b) => KindView { op: Op::LShr, args: seq![a, b] },
            InstKind::AShr(a, b) => KindView { op: Op::AShr, args: seq![a, b] },
            InstKind::CountLeadingZeros(a) => KindView { op: Op::CountLeadingZeros, args: seq![a] },
            InstKind::CountTrailingZeros(a) => KindView { op: Op::CountTrailingZeros, args: seq![a] },
            InstKind::PopCount(a) => KindView { op: Op::PopCount, args: seq![a] },
            InstKind::IntToFloat(a, x) => KindView { op: Op::IntToFloat(x), args: seq![a] },
            InstKind::FloatToInt(a, x) => KindView { op: Op::FloatToInt(x), args: seq![a] },
            InstKind::FloatExtend(a, x) => KindView { op: Op::FloatExtend(x), args: seq![a] },
            InstKind::FloatTrunc(a, x) => KindView { op: Op::FloatTrunc(x), args: seq![a] },
            InstKind::IntExtend(a, x, y) => KindView { op: Op::IntExtend(x, y), args: seq![a] },
            InstKind::IntTrunc(a, x) => KindView { op: Op::IntTrunc(x), args: seq![a] },
            InstKind::PtrToInt(a) => KindView { op: Op::PtrToInt, args: seq![a] },
            InstKind::IntToPtr(a, x) => KindView { op: Op::IntToPtr(x), args: seq![a] },
            InstKind::Alloca(x) => KindView { op: Op::Alloca(x), args: Seq::empty() },
            InstKind::GlobalAddr(x) => KindView { op: Op::GlobalAddr(x@), args: Seq::empty() },
            InstKind::Load(a) => KindView { op: Op::Load, args: seq![a] },
            InstKind::Store(a, b) => KindView { op: Op::Store, args: seq![a, b] },
            InstKind::VolatileLoad(a) => KindView { op: Op::VolatileLoad, args: seq![a] },
            InstKind::VolatileStore(a, b) => KindView { op: Op::VolatileStore, args: seq![a, b] },
            InstKind::GetElementPtr(a, list) => KindView { op: Op::GetElementPtr, args: seq![a] + list@ },
            InstKind::Call(callee, list) => match callee {
                FuncRef::Internal(index) => KindView { op: Op::CallInternal(index), args: list@ },
                FuncRef::External(name) => KindView { op: Op::CallExternal(name@), args: list@ },
                FuncRef::Indirect(target) => KindView {
                    op: Op::CallIndirect,
                    args: seq![target] + list@,
                },
            },
            InstKind::RuntimeCall(x, list) => KindView { op: Op::RuntimeCall(x), args: list@ },
            InstKind::ExtractField(a, x) => KindView { op: Op::ExtractField(x), args: seq![a] },
            InstKind::InsertField(a, x, b) => KindView { op: Op::InsertField(x), args: seq![a, b] },
            InstKind::VAdd(a, b) => KindView { op: Op::VAdd, args: seq![a, b] },
            InstKind::VSub(a, b) => KindView { op: Op::VSub, args: seq![a, b] },
            InstKind::VMul(a, b) => KindView { op: Op::VMul, args: seq![a, b] },
            InstKind::VDiv(a, b) => KindView { op: Op::VDiv, args: seq![a, b] },
            InstKind::VMin(a, b) => KindView { op: Op::VMin, args: seq![a, b] },
            InstKind::VMax(a, b) => KindView { op: Op::VMax, args: seq![a, b] },
            InstKind::VNeg(a) => KindView { op: Op::VNeg, args: seq![a] },
            InstKind::VAbs(a) => KindView { op: Op::VAbs, args: seq![a] },
            InstKind::VSqrt(a) => KindView { op: Op::VSqrt, args: seq![a] },
            InstKind::VFma(a, b, c) => KindView { op: Op::VFma, args: seq![a, b, c] },
            InstKind::VSelect(a, b, c) => KindView { op: Op::VSelect, args: seq![a, b, c] },
            InstKind::VICmp(x, a, b) => KindView { op: Op::VICmp(x), args: seq![a, b] },
            InstKind::VFCmp(x, a, b) => KindView { op: Op::VFCmp(x), args: seq![a, b] },
            InstKind::VLoad(a) => KindView { op: Op::VLoad, args: seq![a] },
            InstKind::VStore(a, b) => KindView { op: Op::VStore, args: seq![a, b] },
            InstKind::VBitcast(a) => KindView { op: Op::VBitcast, args: seq![a] },
            InstKind::VExtract(a, x) => KindView { op: Op::VExtract(x), args: seq![a] },
            InstKind::VInsert(a, x, b) => KindView { op: Op::VInsert(x), args: seq![a, b] },
            InstKind::VBroadcast(a) => KindView { op: Op::VBroadcast, args: seq![a] },
            InstKind::VReduceSum(a) => KindView { op: Op::VReduceSum, args: seq![a] },
            InstKind::VReduceMin(a) => KindView { op: Op::VReduceMin, args: seq![a] },
            InstKind::VReduceMax(a) => KindView { op: Op::VReduceMax, args: seq![a] },
        }
    }

    fn copied(&self) -> (r: InstKind)
        ensures
            r@ == self@,
    {
        match self {
            InstKind::ConstInt(x, y) => InstKind::ConstInt(*x, *y),
            InstKind::ConstFloat(x, y) => InstKind::ConstFloat(*x, *y),
            InstKind::ConstBool(x) => InstKind::ConstBool(*x),
            InstKind::ConstString(x) => InstKind::ConstString(x.clone()),
            InstKind::Undef(x) => InstKind::Undef(x.clone()),
            InstKind::IAdd(a, b) => InstKind::IAdd(*a, *b),
            InstKind::ISub(a, b) => InstKind::ISub(*a, *b),
            InstKind::IMul(a, b) => InstKind::IMul(*a, *b),
            InstKind::IDiv(a, b) => InstKind::IDiv(*a, *b),
            InstKind::IMod(a, b) => InstKind::IMod(*a, *b),
            InstKind::INeg(a) => InstKind::INeg(*a),
            InstKind::FAdd(a, b) => InstKind::FAdd(*a, *b),
            InstKind::FSub(a, b) => InstKind::FSub(*a, *b),
            InstKind::FMul(a, b) => InstKind::FMul(*a, *b),
            InstKind::FDiv(a, b) => InstKind::FDiv(*a, *b),
            InstKind::FPow(a, b) => InstKind::FPow(*a, *b),
            InstKind::FNeg(a) => InstKind::FNeg(*a),
            InstKind::FAbs(a) => InstKind::FAbs(*a),
            InstKind::FSqrt(a) => InstKind::FSqrt(*a),
            InstKind::ICmp(x, a, b) => InstKind::ICmp(*x, *a, *b),
            InstKind::FCmp(x, a, b) => InstKind::FCmp(*x, *a, *b),
            InstKind::And(a, b) => InstKind::And(*a, *b),
            InstKind::Or(a, b) => InstKind::Or(*a, *b),
            InstKind::Not(a) => InstKind::Not(*a),
            InstKind::Select(a, b, c) => InstKind::Select(*a, *b, *c),
            InstKind::BitAnd(a, b) => InstKind::BitAnd(*a, *b),
            InstKind::BitOr(a, b) => InstKind::BitOr(*a, *b),
            InstKind::BitXor(a, b) => InstKind::BitXor(*a, *b),
            InstKind::BitNot(a) => InstKind::BitNot(*a),
            InstKind::Shl(a, b) => InstKind::Shl(*a, *b),
            InstKind::LShr(a, b) => InstKind::LShr(*a, *b),
            InstKind::AShr(a, b) => InstKind::AShr(*a, *b),
            InstKind::CountLeadingZeros(a) => InstKind::CountLeadingZeros(*a),
            InstKind::CountTrailingZeros(a) => InstKind::CountTrailingZeros(*a),
            InstKind::PopCount(a) => InstKind::PopCount(*a),
            InstKind::IntToFloat(a, x) => InstKind::IntToFloat(*a, *x),
            InstKind::FloatToInt(a, x) => InstKind::FloatToInt(*a, *x),
            InstKind::FloatExtend(a, x) => InstKind::FloatExtend(*a, *x),
            InstKind::FloatTrunc(a, x) => InstKind::FloatTrunc(*a, *x),
            InstKind::IntExtend(a, x, y) => InstKind::IntExtend(*a, *x, *y),
            InstKind::IntTrunc(a, x) => InstKind::IntTrunc(*a, *x),
            InstKind::PtrToInt(a) => InstKind::PtrToInt(*a),
            InstKind::IntToPtr(a, x) => InstKind::IntToPtr(*a, x.clone()),
            InstKind::Alloca(x) => InstKind::Alloca(x.clone()),
            InstKind::GlobalAddr(x) => InstKind::GlobalAddr(x.clone()),
            InstKind::Load(a) => InstKind::Load(*a),
            InstKind::Store(a, b) => InstKind::Store(*a, *b),
            InstKind::VolatileLoad(a) => InstKind::VolatileLoad(*a),
            InstKind::VolatileStore(a, b) => InstKind::VolatileStore(*a, *b),
            InstKind::GetElementPtr(a, list) => InstKind::GetElementPtr(*a, copy_list(list)),
            InstKind::Call(callee, list) => InstKind::Call(callee.clone(), copy_list(list)),
            InstKind::RuntimeCall(x, list) => InstKind::RuntimeCall(*x, copy_list(list)),
            InstKind::ExtractField(a, x) => InstKind::ExtractField(*a, *x),
            InstKind::InsertField(a, x, b) => InstKind::InsertField(*a, *x, *b),
            InstKind::VAdd(a, b) => InstKind::VAdd(*a, *b),
            InstKind::VSub(a, b) => InstKind::VSub(*a, *b),
            InstKind::VMul(a, b) => InstKind::VMul(*a, *b),
            InstKind::VDiv(a, b) => InstKind::VDiv(*a, *b),
            InstKind::VMin(a, b) => InstKind::VMin(*a, *b),
            InstKind::VMax(a, b) => InstKind::VMax(*a, *b),
            InstKind::VNeg(a) => InstKind::VNeg(*a),
            InstKind::VAbs(a) => InstKind::VAbs(*a),
            InstKind::VSqrt(a) => InstKind::VSqrt(*a),
            InstKind::VFma(a, b, c) => InstKind::VFma(*a, *b, *c),
            InstKind::VSelect(a, b, c) => InstKind::VSelect(*a, *b, *c),
            InstKind::VICmp(x, a, b) => InstKind::VICmp(*x, *a, *b),
            InstKind::VFCmp(x, a, b) => InstKind::VFCmp(*x, *a, *b),
            InstKind::VLoad(a) => InstKind::VLoad(*a),
            InstKind::VStore(a, b) => InstKind::VStore(*a, *b),
            InstKind::VBitcast(a) => InstKind::VBitcast(*a),
            InstKind::VExtract(a, x) => InstKind::VExtract(*a, *x),
            InstKind::VInsert(a, x, b) => InstKind::VInsert(*a, *x, *b),
            InstKind::VBroadcast(a) => InstKind::VBroadcast(*a),
            InstKind::VReduceSum(a) => InstKind::VReduceSum(*a),
            InstKind::VReduceMin(a) => InstKind::VReduceMin(*a),
            InstKind::VReduceMax(a) => InstKind::VReduceMax(*a),
        }
    }
}

impl Clone for InstKind {
    fn clone(&self) -> (r: Self)
        ensures
            r@ == self@,
    {
        self.copied()
    }
}

/// How a block ends.
#[derive(Debug)]
pub enum Terminator {
    Return(Option<ValueId>),
    Branch(BlockId, Vec<ValueId>),
    CondBranch {
        cond: ValueId,
        true_dest: BlockId,
        true_args: Vec<ValueId>,
        false_dest: BlockId,
        false_args: Vec<ValueId>,
    },
    Switch { selector: ValueId, cases: Vec<(i64, BlockId)>, default: BlockId },
    Unreachable,
}

/// The model of a terminator.
pub enum TermView {
    Return(Option<ValueId>),
    Branch(BlockId, Seq<ValueId>),
    CondBranch {
        cond: ValueId,
        true_dest: BlockId,
        true_args: Seq<ValueId>,
        false_dest: BlockId,
        false_args: Seq<ValueId>,
    },
    Switch { selector: ValueId, cases: Seq<(i64, BlockId)>, default: BlockId },
    Unreachable,
}

impl Terminator {
    /// The model of the terminator.
    pub open spec fn view(&self) -> TermView {
        match *self {
            Terminator::Return(v) => TermView::Return(v),
            Terminator::Branch(dest, args) => TermView::Branch(dest, args@),
            Terminator::CondBranch { cond, true_dest, true_args, false_dest, false_args } => {
                TermView::CondBranch {
                    cond,
                    true_dest,
                    true_args: true_args@,
                    false_dest,
                    false_args: false_args@,
                }
            },
            Terminator::Switch { selector, cases, default } => TermView::Switch {
                selector,
                cases: cases@,
                default,
            },
            Terminator::Unreachable => TermView::Unreachable,
        }
    }
}

/// Copies the cases of a switch.
pub fn copy_cases(cases: &Vec<(i64, BlockId)>) -> (r: Vec<(i64, BlockId)>)
    ensures
        r@ == cases@,
{
    let mut out: Vec<(i64, BlockId)> = Vec::new();
    let mut i: usize = 0;
    while i < cases.len()
        invariant
            i <= cases.len(),
            out@ == cases@.take(i as int),
        decreases cases.len() - i,
    {
        out.push(cases[i]);
        proof {
            assert(cases@.take(i + 1) =~= cases@.take(i as int).push(cases@[i as int]));
        }
        i = i + 1;
    }
    proof {
        assert(cases@.take(cases@.len() as int) =~= cases@);
    }
    out
}

impl Clone for Terminator {
    fn clone(&self) -> (r: Self)
        ensures
            r@ == self@,
    {
        match self {
            Terminator::Return(v) => Terminator::Return(*v),
            Terminator::Branch(dest, args) => Terminator::Branch(*dest, copy_list(args)),
            Terminator::CondBranch { cond, true_dest, true_args, false_dest, false_args } => {
                Terminator::CondBranch {
                    cond: *cond,
                    true_dest: *true_dest,
                    true_args: copy_list(true_args),
                    false_dest: *false_dest,
                    false_args: copy_list(false_args),
                }
            },
            Terminator::Switch { selector, cases, default } => Terminator::Switch {
                selector: *selector,
                cases: copy_cases(cases),
                default: *default,
            },
            Terminator::Unreachable => Terminator::Unreachable,
        }
    }
}

/// The model of an optional terminator.
pub open spec fn term_view(term: Option<Terminator>) -> Option<TermView> {
    match term {
        Some(t) => Some(t@),
        None => None,
    }
}

/// An instruction: a kind, and the value that it defines.
#[derive(Debug)]
pub struct Inst {
    pub id: ValueId,
    pub kind: InstKind,
    pub ty: IrType,
    pub span: Span,
}

/// The model of an instruction.
pub struct InstView {
    pub id: ValueId,
    pub kind: KindView,
    pub ty: IrType,
    pub span: Span,
}

impl Inst {
    /// The model of the instruction.
    pub open spec fn view(&self) -> InstView {
        InstView { id: self.id, kind: self.kind@, ty: self.ty, span: self.span }
    }

}

impl Clone for Inst {
    fn clone(&self) -> (r: Self)
        ensures
            r@ == self@,
    {
        Inst { id: self.id, kind: self.kind.clone(), ty: self.ty.clone(), span: self.span }
    }
}

/// A parameter of a block: the value that each branch into it supplies.
#[derive(Debug)]
pub struct BlockParam {
    pub id: ValueId,
    pub ty: IrType,
}

impl Clone for BlockParam {
    fn clone(&self) -> (r: Self)
        ensures
            r == *self,
    {
        BlockParam { id: self.id, ty: self.ty.clone() }
    }
}

/// A straight run of instructions.
#[derive(Debug)]
pub struct BasicBlock {
    pub id: BlockId,
    pub name: String,
    pub params: Vec<BlockParam>,
    pub insts: Vec<Inst>,
    pub terminator: Option<Terminator>,
}

/// The model of a block.
pub struct BlockView {
    pub id: BlockId,
    pub name: Seq<char>,
    pub params: Seq<BlockParam>,
    pub insts: Seq<InstView>,
    pub term: Option<TermView>,
}

/// The models of a run of instructions.
pub open spec fn insts_view(insts: Seq<Inst>) -> Seq<InstView> {
    Seq::new(insts.len(), |i: int| insts[i]@)
}

/// The models of a run of blocks.
pub open spec fn blocks_view(blocks: Seq<BasicBlock>) -> Seq<BlockView> {
    Seq::new(blocks.len(), |i: int| blocks[i]@)
}

impl BasicBlock {
    /// The model of the block.
    pub open spec fn view(&self) -> BlockView {
        BlockView {
            id: self.id,
            name: self.name@,
            params: self.params@,
            insts: insts_view(self.insts@),
            term: term_view(self.terminator),
        }
    }
}

/// A parameter of a function.
#[derive(Debug)]
pub struct Param {
    pub name: String,
    pub ty: IrType,
    pub id: ValueId,
    /// Storage reached through this parameter is reached through no other.
    pub fortran_noalias: bool,
}

/// The model of a function parameter.
pub struct ParamView {
    pub name: Seq<char>,
    pub ty: IrType,
    pub id: ValueId,
    pub fortran_noalias: bool,
}

impl Param {
    /// The model of the parameter.
    pub open spec fn view(&self) -> ParamView {
        ParamView {
            name: self.name@,
            ty: self.ty,
            id: self.id,
            fortran_noalias: self.fortran_noalias,
        }
    }
}

/// The models of a run of function parameters.
pub open spec fn params_view(params: Seq<Param>) -> Seq<ParamView> {
    Seq::new(params.len(), |i: int| params[i]@)
}

/// A function.
#[derive(Debug)]
pub struct Function {
    pub name: String,
    pub params: Vec<Param>,
    pub return_type: IrType,
    pub blocks: Vec<BasicBlock>,
    pub entry: BlockId,
    /// Only calls inside this module reach the function.
    pub internal_only: bool,
    /// Declared free of side effects in the source.
    pub is_pure: bool,
    /// Types of values already looked up or registered.
    pub type_cache: IdMap<ValueId, IrType>,
    pub next_value: u32,
    pub next_block: u32,
}

/// The model of a function.
pub struct FuncView {
    pub name: Seq<char>,
    pub params: Seq<ParamView>,
    pub return_type: IrType,
    pub blocks: Seq<BlockView>,
    pub entry: BlockId,
    pub internal_only: bool,
    pub is_pure: bool,
    pub type_cache: Map<ValueId, IrType>,
    pub next_value: u32,
    pub next_block: u32,
}

/// Where a value is defined, and with what type.
pub struct Def {
    pub id: ValueId,
    pub ty: IrType,
    pub block: BlockId,
}

/// What the function parameters define.
pub open spec fn param_defs(params: Seq<ParamView>, entry: BlockId) -> Seq<Def> {
    Seq::new(params.len(), |i: int| Def { id: params[i].id, ty: params[i].ty, block: entry })
}

/// What the parameters of a block define.
pub open spec fn block_param_defs(b: BlockView) -> Seq<Def> {
    Seq::new(
        b.params.len(),
        |i: int| Def { id: b.params[i].id, ty: b.params[i].ty, block: b.id },
    )
}

/// What the instructions of a block define.
pub open spec fn inst_defs(b: BlockView) -> Seq<Def> {
    Seq::new(b.insts.len(), |i: int| Def { id: b.insts[i].id, ty: b.insts[i].ty, block: b.id })
}

/// What the first `n` blocks define, in order.
pub open spec fn defs_upto(blocks: Seq<BlockView>, n: nat) -> Seq<Def>
    decreases n,
{
    if n == 0 {
        Seq::empty()
    } else {
        defs_upto(blocks, (n - 1) as nat) + block_param_defs(blocks[n - 1]) + inst_defs(
            blocks[n - 1],
        )
    }
}

/// Every definition of the function, in order: its parameters, then block by
/// block the block's parameters and instructions.
pub open spec fn defs(f: FuncView) -> Seq<Def> {
    param_defs(f.params, f.entry) + defs_upto(f.blocks, f.blocks.len())
}

/// The first of the definitions of `v`.
pub open spec fn first_def(s: Seq<Def>, v: ValueId) -> Option<Def>
    decreases s.len(),
{
    if s.len() == 0 {
        None
    } else {
        match first_def(s.drop_last(), v) {
            Some(d) => Some(d),
            None => if s.last().id == v {
                Some(s.last())
            } else {
                None
            },
        }
    }
}

/// The last of the definitions of `v`.
pub open spec fn last_def(s: Seq<Def>, v: ValueId) -> Option<Def>
    decreases s.len(),
{
    if s.len() == 0 {
        None
    } else if s.last().id == v {
        Some(s.last())
    } else {
        last_def(s.drop_last(), v)
    }
}

/// Looking through a concatenation finds what its first part holds, else what
/// its second part holds.
pub proof fn lemma_first_def_concat(s: Seq<Def>, t: Seq<Def>, v: ValueId)
    ensures
        first_def(s + t, v) == match first_def(s, v) {
            Some(d) => Some(d),
            None => first_def(t, v),
        },
    decreases t.len(),
{
    if t.len() == 0 {
        assert(s + t =~= s);
    } else {
        lemma_first_def_concat(s, t.drop_last(), v);
        assert((s + t).drop_last() =~= s + t.drop_last());
    }
}

/// Looking up a value among definitions that end in one more.
pub proof fn lemma_first_def_push(s: Seq<Def>, d: Def, v: ValueId)
    ensures
        first_def(s.push(d), v) == match first_def(s, v) {
            Some(x) => Some(x),
            None => if d.id == v {
                Some(d)
            } else {
                None
            },
        },
{
    assert(s.push(d).drop_last() =~= s);
}

/// A value is found exactly where some definition names it.
pub proof fn lemma_first_def_some(s: Seq<Def>, v: ValueId)
    ensures
        (first_def(s, v) is Some) == (exists|i: int| 0 <= i < s.len() && (#[trigger] s[i]).id == v),
        first_def(s, v) matches Some(d) ==> d.id == v && s.contains(d),
    decreases s.len(),
{
    if s.len() > 0 {
        lemma_first_def_some(s.drop_last(), v);
        assert forall|i: int| 0 <= i < s.len() - 1 implies s.drop_last()[i] == s[i] by {}
        if first_def(s.drop_last(), v) is Some {
            let d = first_def(s.drop_last(), v)->0;
            let i = s.drop_last().index_of(d);
            assert(s[i] == d);
        } else if s.last().id == v {
            assert(s[s.len() - 1] == s.last());
        }
        if exists|i: int| 0 <= i < s.len() && (#[trigger] s[i]).id == v {
            let i = choose|i: int| 0 <= i < s.len() && (#[trigger] s[i]).id == v;
            if i < s.len() - 1 {
                assert(s.drop_last()[i].id == v);
            }
        }
    }
}

/// The type that the first definition of `v` gives it.
pub open spec fn def_type(f: FuncView, v: ValueId) -> Option<IrType> {
    match first_def(defs(f), v) {
        Some(d) => Some(d.ty),
        None => None,
    }
}

/// The type of a value: what the cache holds, else what its definition says.
pub open spec fn type_of(f: FuncView, v: ValueId) -> Option<IrType> {
    if f.type_cache.contains_key(v) {
        Some(f.type_cache[v])
    } else {
        def_type(f, v)
    }
}

/// Is `i` where the first block named `id` stands?
pub open spec fn is_first_block(blocks: Seq<BlockView>, id: BlockId, i: int) -> bool {
    &&& 0 <= i < blocks.len()
    &&& blocks[i].id == id
    &&& forall|j: int| 0 <= j < i ==> (#[trigger] blocks[j]).id != id
}

/// Is there a block named `id`?
pub open spec fn has_block(blocks: Seq<BlockView>, id: BlockId) -> bool {
    exists|i: int| 0 <= i < blocks.len() && (#[trigger] blocks[i]).id == id
}

/// Where the first block named `id` stands, if there is one.
pub open spec fn block_pos(blocks: Seq<BlockView>, id: BlockId) -> int {
    choose|i: int| is_first_block(blocks, id, i)
}

/// A block that exists has a first occurrence, and only one.
pub proof fn lemma_block_pos(blocks: Seq<BlockView>, id: BlockId)
    requires
        has_block(blocks, id),
    ensures
        is_first_block(blocks, id, block_pos(blocks, id)),
{
    let i = choose|i: int| 0 <= i < blocks.len() && (#[trigger] blocks[i]).id == id;
    lemma_first_exists(blocks, id, i);
}

proof fn lemma_first_exists(blocks: Seq<BlockView>, id: BlockId, i: int)
    requires
        0 <= i < blocks.len(),
        blocks[i].id == id,
    ensures
        exists|j: int| is_first_block(blocks, id, j),
    decreases i,
{
    if exists|j: int| 0 <= j < i && (#[trigger] blocks[j]).id == id {
        let j = choose|j: int| 0 <= j < i && (#[trigger] blocks[j]).id == id;
        lemma_first_exists(blocks, id, j);
    } else {
        assert(is_first_block(blocks, id, i));
    }
}

/// The block named `id`.
pub open spec fn the_block(blocks: Seq<BlockView>, id: BlockId) -> BlockView {
    blocks[block_pos(blocks, id)]
}

impl Function {
    /// The model of the function.
    pub open spec fn view(&self) -> FuncView {
        FuncView {
            name: self.name@,
            params: params_view(self.params@),
            return_type: self.return_type,
            blocks: blocks_view(self.blocks@),
            entry: self.entry,
            internal_only: self.internal_only,
            is_pure: self.is_pure,
            type_cache: self.type_cache@,
            next_value: self.next_value,
            next_block: self.next_block,
        }
    }

    /// A function with one empty block, the entry, numbered zero.
    ///
    /// Values are numbered from behind the largest parameter. The types of the
    /// parameters are registered.
    pub fn new(name: String, params: Vec<Param>, return_type: IrType) -> (r: Function)
        requires
            forall|i: int| 0 <= i < params.len() ==> (#[trigger] params@[i]).id.0 < u32::MAX,
        ensures
            r.name == name,
            r.params == params,
            r.return_type == return_type,
            r.entry == BlockId(0),
            r.next_block == 1,
            !r.internal_only,
            !r.is_pure,
            r.blocks.len() == 1,
            r.blocks[0].id == BlockId(0),
            r.blocks[0].name@ == "entry"@,
            r.blocks[0].params@.len() == 0,
            r.blocks[0].insts@.len() == 0,
            r.blocks[0].terminator is None,
            r.next_value == fresh_above(params@, params@.len()),
            r.type_cache@ == param_types(params@, params@.len()),
    {
        let mut next: u32 = 0;
        let mut cache: IdMap<ValueId, IrType> = IdMap::new();
        let mut i: usize = 0;
        while i < params.len()
            invariant
                i <= params.len(),
                forall|k: int| 0 <= k < params.len() ==> (#[trigger] params@[k]).id.0 < u32::MAX,
                next == fresh_above(params@, i as nat),
                cache@ == param_types(params@, i as nat),
            decreases params.len() - i,
        {
            if params[i].id.0 >= next {
                next = params[i].id.0 + 1;
            }
            cache.insert(params[i].id, params[i].ty.clone());
            i = i + 1;
        }
        let entry = BasicBlock {
            id: BlockId(0),
            name: crate::text::text("entry"),
            params: Vec::new(),
            insts: Vec::new(),
            terminator: None,
        };
        let mut blocks: Vec<BasicBlock> = Vec::new();
        blocks.push(entry);
        Function {
            name,
            params,
            return_type,
            blocks,
            entry: BlockId(0),
            internal_only: false,
            is_pure: false,
            type_cache: cache,
            next_value: next,
            next_block: 1,
        }
    }

    /// Hands out a value name that was not handed out before.
    pub fn next_value_id(&mut self) -> (r: ValueId)
        requires
            old(self).next_value < u32::MAX,
        ensures
            r.0 == old(self).next_value,
            final(self)@ == (FuncView {
                next_value: (old(self).next_value + 1) as u32,
                ..old(self)@
            }),
    {
        let id = ValueId(self.next_value);
        self.next_value = self.next_value + 1;
        id
    }

    /// Adds an empty block at the end.
    pub fn create_block(&mut self, name: &str) -> (r: BlockId)
        requires
            old(self).next_block < u32::MAX,
        ensures
            r.0 == old(self).next_block,
            final(self)@ == (FuncView {
                next_block: (old(self).next_block + 1) as u32,
                blocks: old(self)@.blocks.push(
                    BlockView {
                        id: r,
                        name: name@,
                        params: Seq::empty(),
                        insts: Seq::empty(),
                        term: None,
                    },
                ),
                ..old(self)@
            }),
    {
        let id = BlockId(self.next_block);
        self.next_block = self.next_block + 1;
        let block = BasicBlock {
            id,
            name: crate::text::text(name),
            params: Vec::new(),
            insts: Vec::new(),
            terminator: None,
        };
        proof {
            assert(block@.insts =~= Seq::<InstView>::empty());
            assert(block@.params =~= Seq::<BlockParam>::empty());
        }
        let ghost added = block@;
        self.blocks.push(block);
        proof {
            assert(self@.blocks =~= old(self)@.blocks.push(added));
        }
        id
    }

    /// Where the first block named `id` stands.
    pub fn block_index(&self, id: BlockId) -> (r: Option<usize>)
        ensures
            match r {
                Some(i) => is_first_block(self@.blocks, id, i as int) && i == block_pos(
                    self@.blocks,
                    id,
                ) && has_block(self@.blocks, id),
                None => !has_block(self@.blocks, id),
            },
    {
        let mut i: usize = 0;
        while i < self.blocks.len()
            invariant
                i <= self.blocks.len(),
                forall|j: int| 0 <= j < i ==> (#[trigger] self@.blocks[j]).id != id,
            decreases self.blocks.len() - i,
        {
            if same_id(self.blocks[i].id, id) {
                proof {
                    assert(self@.blocks[i as int].id == id);
                    lemma_block_pos(self@.blocks, id);
                    let p = block_pos(self@.blocks, id);
                    assert(p == i) by {
                        if p < i {
                            assert(self@.blocks[p].id != id);
                        }
                    }
                }
                return Some(i);
            }
            proof {
                assert(self@.blocks[i as int].id != id);
            }
            i = i + 1;
        }
        None
    }

    /// The block named `id`, if there is one.
    pub fn try_block(&self, id: BlockId) -> (r: Option<&BasicBlock>)
        ensures
            match r {
                Some(b) => has_block(self@.blocks, id) && b@ == the_block(self@.blocks, id) && *b
                    == self.blocks@[block_pos(self@.blocks, id)],
                None => !has_block(self@.blocks, id),
            },
    {
        match self.block_index(id) {
            Some(i) => Some(&self.blocks[i]),
            None => None,
        }
    }

    /// The block named `id`.
    pub fn block(&self, id: BlockId) -> (r: &BasicBlock)
        requires
            has_block(self@.blocks, id),
        ensures
            r@ == the_block(self@.blocks, id),
            *r == self.blocks@[block_pos(self@.blocks, id)],
    {
        match self.block_index(id) {
            Some(i) => &self.blocks[i],
            None => &self.blocks[0],
        }
    }

    /// The block named `id`, to be changed.
    pub fn block_mut(&mut self, id: BlockId) -> (r: &mut BasicBlock)
        requires
            has_block(old(self)@.blocks, id),
        ensures
            *r == old(self).blocks@[block_pos(old(self)@.blocks, id)],
            final(self)@ == (FuncView {
                blocks: old(self)@.blocks.update(
                    block_pos(old(self)@.blocks, id),
                    final(r)@,
                ),
                ..old(self)@
            }),
    {
        let ghost before = *self;
        let index: usize = match self.block_index(id) {
            Some(i) => i,
            None => 0,
        };
        let r = &mut self.blocks[index];
        proof {
            assert(blocks_view(before.blocks@.update(index as int, *final(r))) =~= before@.blocks.update(
                index as int,
                final(r)@,
            ));
        }
        r
    }

    /// The registered type of a value.
    pub fn cached_value_type(&self, v: ValueId) -> (r: Option<&IrType>)
        ensures
            match r {
                Some(ty) => self@.type_cache.contains_key(v) && *ty == self@.type_cache[v],
                None => !self@.type_cache.contains_key(v),
            },
    {
        self.type_cache.get(&v)
    }

    /// Registers the type of a value.
    pub fn register_type(&mut self, v: ValueId, ty: IrType)
        ensures
            final(self)@ == (FuncView {
                type_cache: old(self)@.type_cache.insert(v, ty),
                ..old(self)@
            }),
    {
        self.type_cache.insert(v, ty);
    }

    /// The type that the first definition of a value gives it.
    pub fn defined_type(&self, v: ValueId) -> (r: Option<&IrType>)
        ensures
            match r {
                Some(ty) => def_type(self@, v) == Some(*ty),
                None => def_type(self@, v) is None,
            },
    {
        let ghost pd = param_defs(self@.params, self.entry);
        let ghost all = defs(self@);
        let mut i: usize = 0;
        proof {
            assert(pd.take(0) =~= Seq::<Def>::empty());
        }
        while i < self.params.len()
            invariant
                i <= self.params.len(),
                pd == param_defs(self@.params, self.entry),
                all == defs(self@),
                first_def(pd.take(i as int), v) is None,
            decreases self.params.len() - i,
        {
            proof {
                lemma_first_def_push(pd.take(i as int), pd[i as int], v);
                assert(pd.take(i + 1) =~= pd.take(i as int).push(pd[i as int]));
            }
            if same_id(self.params[i].id, v) {
                proof {
                    let rest = pd.skip(i + 1) + defs_upto(self@.blocks, self@.blocks.len());
                    lemma_first_def_concat(pd.take(i + 1), rest, v);
                    assert(all =~= pd.take(i + 1) + rest);
                }
                return Some(&self.params[i].ty);
            }
            i = i + 1;
        }
        proof {
            assert(pd.take(pd.len() as int) =~= pd);
            lemma_first_def_concat(pd, defs_upto(self@.blocks, self@.blocks.len()), v);
        }
        let mut b: usize = 0;
        while b < self.blocks.len()
            invariant
                b <= self.blocks.len(),
                pd == param_defs(self@.params, self.entry),
                all == defs(self@),
                first_def(pd, v) is None,
                first_def(defs_upto(self@.blocks, b as nat), v) is None,
            decreases self.blocks.len() - b,
        {
            let found = self.blocks[b].defined_type(v);
            proof {
                let bv = self@.blocks[b as int];
                let here = block_param_defs(bv) + inst_defs(bv);
                let before = defs_upto(self@.blocks, b as nat);
                lemma_first_def_concat(before, here, v);
                assert(defs_upto(self@.blocks, (b + 1) as nat) =~= before + here);
                if first_def(here, v) is Some {
                    lemma_defs_prefix(self@.blocks, (b + 1) as nat, self@.blocks.len());
                    let upto = defs_upto(self@.blocks, (b + 1) as nat);
                    let rest = defs_upto(self@.blocks, self@.blocks.len()).skip(upto.len() as int);
                    lemma_first_def_concat(defs_upto(self@.blocks, (b + 1) as nat), rest, v);
                    lemma_first_def_concat(pd, defs_upto(self@.blocks, self@.blocks.len()), v);
                }
            }
            if found.is_some() {
                return found;
            }
            b = b + 1;
        }
        proof {
            lemma_first_def_concat(pd, defs_upto(self@.blocks, self@.blocks.len()), v);
        }
        None
    }

    /// The type of a value: what is registered, else what its definition says.
    pub fn value_type(&self, v: ValueId) -> (r: Option<IrType>)
        ensures
            r == type_of(self@, v),
    {
        match self.cached_value_type(v) {
            Some(ty) => Some(ty.clone()),
            None => match self.defined_type(v) {
                Some(ty) => Some(ty.clone()),
                None => None,
            },
        }
    }

    /// Registers the type of every definition anew, the last one of a value
    /// prevailing.
    pub fn rebuild_type_cache(&mut self)
        ensures
            final(self)@ == (FuncView {
                type_cache: types_of_defs(defs(old(self)@)),
                ..old(self)@
            }),
    {
        let ghost pd = param_defs(self@.params, self.entry);
        let mut cache: IdMap<ValueId, IrType> = IdMap::new();
        let mut i: usize = 0;
        proof {
            assert(pd.take(0) =~= Seq::<Def>::empty());
            assert(types_of_defs(pd.take(0)) =~= Map::<ValueId, IrType>::empty());
        }
        while i < self.params.len()
            invariant
                i <= self.params.len(),
                *self == *old(self),
                pd == param_defs(self@.params, self.entry),
                cache@ == types_of_defs(pd.take(i as int)),
            decreases self.params.len() - i,
        {
            cache.insert(self.params[i].id, self.params[i].ty.clone());
            proof {
                assert(pd.take(i + 1).drop_last() =~= pd.take(i as int));
            }
            i = i + 1;
        }
        proof {
            assert(pd.take(pd.len() as int) =~= pd);
            assert(pd + defs_upto(self@.blocks, 0) =~= pd);
        }
        let mut b: usize = 0;
        while b < self.blocks.len()
            invariant
                b <= self.blocks.len(),
                *self == *old(self),
                pd == param_defs(self@.params, self.entry),
                cache@ == types_of_defs(pd + defs_upto(self@.blocks, b as nat)),
            decreases self.blocks.len() - b,
        {
            let ghost before = pd + defs_upto(self@.blocks, b as nat);
            self.blocks[b].register_types(&mut cache, Ghost(before));
            proof {
                let bv = self@.blocks[b as int];
                assert(before + block_param_defs(bv) + inst_defs(bv) =~= pd + defs_upto(
                    self@.blocks,
                    (b + 1) as nat,
                ));
            }
            b = b + 1;
        }
        self.type_cache = cache;
    }
}

/// The definitions of the first blocks open those of more blocks.
pub proof fn lemma_defs_prefix(blocks: Seq<BlockView>, a: nat, n: nat)
    requires
        a <= n,
    ensures
        defs_upto(blocks, a).len() <= defs_upto(blocks, n).len(),
        defs_upto(blocks, n) == defs_upto(blocks, a) + defs_upto(blocks, n).skip(
            defs_upto(blocks, a).len() as int,
        ),
    decreases n,
{
    if a < n {
        lemma_defs_prefix(blocks, a, (n - 1) as nat);
        assert(defs_upto(blocks, n) =~= defs_upto(blocks, a) + defs_upto(blocks, n).skip(
            defs_upto(blocks, a).len() as int,
        ));
    } else {
        assert(defs_upto(blocks, n) =~= defs_upto(blocks, a) + defs_upto(blocks, n).skip(
            defs_upto(blocks, a).len() as int,
        ));
    }
}

/// The types that definitions give, the last one of a value prevailing.
pub open spec fn types_of_defs(s: Seq<Def>) -> Map<ValueId, IrType>
    decreases s.len(),
{
    if s.len() == 0 {
        Map::empty()
    } else {
        types_of_defs(s.drop_last()).insert(s.last().id, s.last().ty)
    }
}

/// The smallest number above those of the first `n` parameters.
pub open spec fn fresh_above(params: Seq<Param>, n: nat) -> int
    decreases n,
{
    if n == 0 {
        0
    } else {
        let below = fresh_above(params, (n - 1) as nat);
        if params[n - 1].id.0 >= below {
            params[n - 1].id.0 + 1
        } else {
            below
        }
    }
}

/// The types of the first `n` parameters.
pub open spec fn param_types(params: Seq<Param>, n: nat) -> Map<ValueId, IrType>
    decreases n,
{
    if n == 0 {
        Map::empty()
    } else {
        param_types(params, (n - 1) as nat).insert(params[n - 1].id, params[n - 1].ty)
    }
}

impl BasicBlock {
    /// The type that the first definition of `v` in this block gives it.
    pub fn defined_type(&self, v: ValueId) -> (r: Option<&IrType>)
        ensures
            match r {
                Some(ty) => first_def(block_param_defs(self@) + inst_defs(self@), v) matches Some(d)
                    && d.ty == *ty,
                None => first_def(block_param_defs(self@) + inst_defs(self@), v) is None,
            },
    {
        let ghost pd = block_param_defs(self@);
        let ghost id = inst_defs(self@);
        let mut i: usize = 0;
        proof {
            assert(pd.take(0) =~= Seq::<Def>::empty());
            assert(id.take(0) =~= Seq::<Def>::empty());
        }
        while i < self.params.len()
            invariant
                i <= self.params.len(),
                pd == block_param_defs(self@),
                id == inst_defs(self@),
                first_def(pd.take(i as int), v) is None,
            decreases self.params.len() - i,
        {
            proof {
                lemma_first_def_push(pd.take(i as int), pd[i as int], v);
                assert(pd.take(i + 1) =~= pd.take(i as int).push(pd[i as int]));
            }
            if same_id(self.params[i].id, v) {
                proof {
                    lemma_first_def_concat(pd.take(i + 1), pd.skip(i + 1) + id, v);
                    assert(pd + id =~= pd.take(i + 1) + (pd.skip(i + 1) + id));
                }
                return Some(&self.params[i].ty);
            }
            i = i + 1;
        }
        proof {
            assert(pd.take(pd.len() as int) =~= pd);
            lemma_first_def_concat(pd, id, v);
        }
        let mut k: usize = 0;
        while k < self.insts.len()
            invariant
                k <= self.insts.len(),
                pd == block_param_defs(self@),
                id == inst_defs(self@),
                first_def(pd, v) is None,
                first_def(pd + id, v) == first_def(id, v),
                first_def(id.take(k as int), v) is None,
            decreases self.insts.len() - k,
        {
            proof {
                lemma_first_def_push(id.take(k as int), id[k as int], v);
                assert(id.take(k + 1) =~= id.take(k as int).push(id[k as int]));
            }
            if same_id(self.insts[k].id, v) {
                proof {
                    lemma_first_def_concat(id.take(k + 1), id.skip(k + 1), v);
                    assert(id =~= id.take(k + 1) + id.skip(k + 1));
                }
                return Some(&self.insts[k].ty);
            }
            k = k + 1;
        }
        proof {
            assert(id.take(id.len() as int) =~= id);
        }
        None
    }

    fn register_types(&self, cache: &mut IdMap<ValueId, IrType>, Ghost(before): Ghost<Seq<Def>>)
        requires
            old(cache)@ == types_of_defs(before),
        ensures
            final(cache)@ == types_of_defs(before + block_param_defs(self@) + inst_defs(self@)),
    {
        let ghost pd = block_param_defs(self@);
        let ghost id = inst_defs(self@);
        let mut i: usize = 0;
        proof {
            assert(before + pd.take(0) =~= before);
        }
        while i < self.params.len()
            invariant
                i <= self.params.len(),
                pd == block_param_defs(self@),
                cache@ == types_of_defs(before + pd.take(i as int)),
            decreases self.params.len() - i,
        {
            cache.insert(self.params[i].id, self.params[i].ty.clone());
            proof {
                assert((before + pd.take(i + 1)).drop_last() =~= before + pd.take(i as int));
            }
            i = i + 1;
        }
        proof {
            assert(pd.take(pd.len() as int) =~= pd);
            assert(before + pd + id.take(0) =~= before + pd);
        }
        let mut k: usize = 0;
        while k < self.insts.len()
            invariant
                k <= self.insts.len(),
                pd == block_param_defs(self@),
                id == inst_defs(self@),
                cache@ == types_of_defs(before + pd + id.take(k as int)),
            decreases self.insts.len() - k,
        {
            cache.insert(self.insts[k].id, self.insts[k].ty.clone());
            proof {
                assert((before + pd + id.take(k + 1)).drop_last() =~= before + pd + id.take(k as int));
            }
            k = k + 1;
        }
        proof {
            assert(id.take(id.len() as int) =~= id);
        }
    }
}

/// Every definition of the function, in order.
pub fn definitions(func: &Function) -> (r: Vec<Def>)
    ensures
        r@ == defs(func@),
{
    let ghost pd = param_defs(func@.params, func.entry);
    let mut out: Vec<Def> = Vec::new();
    let mut i: usize = 0;
    while i < func.params.len()
        invariant
            i <= func.params.len(),
            pd == param_defs(func@.params, func.entry),
            out@ == pd.take(i as int),
        decreases func.params.len() - i,
    {
        let p = &func.params[i];
        out.push(Def { id: p.id, ty: p.ty.clone(), block: func.entry });
        proof {
            assert(pd.take(i + 1) =~= pd.take(i as int).push(pd[i as int]));
        }
        i = i + 1;
    }
    proof {
        assert(pd.take(pd.len() as int) =~= pd);
        assert(pd + defs_upto(func@.blocks, 0) =~= pd);
    }
    let mut b: usize = 0;
    while b < func.blocks.len()
        invariant
            b <= func.blocks.len(),
            pd == param_defs(func@.params, func.entry),
            out@ == pd + defs_upto(func@.blocks, b as nat),
        decreases func.blocks.len() - b,
    {
        let ghost before = out@;
        func.blocks[b].push_definitions(&mut out);
        proof {
            let bv = func@.blocks[b as int];
            assert(before + block_param_defs(bv) + inst_defs(bv) =~= pd + defs_upto(
                func@.blocks,
                (b + 1) as nat,
            ));
        }
        b = b + 1;
    }
    out
}

impl BasicBlock {
    fn push_definitions(&self, out: &mut Vec<Def>)
        ensures
            final(out)@ == old(out)@ + block_param_defs(self@) + inst_defs(self@),
    {
        let ghost pd = block_param_defs(self@);
        let ghost id = inst_defs(self@);
        let ghost before = out@;
        let mut i: usize = 0;
        proof {
            assert(before + pd.take(0) =~= before);
        }
        while i < self.params.len()
            invariant
                i <= self.params.len(),
                pd == block_param_defs(self@),
                out@ == before + pd.take(i as int),
            decreases self.params.len() - i,
        {
            let p = &self.params[i];
            out.push(Def { id: p.id, ty: p.ty.clone(), block: self.id });
            proof {
                assert(before + pd.take(i + 1) =~= (before + pd.take(i as int)).push(pd[i as int]));
            }
            i = i + 1;
        }
        proof {
            assert(pd.take(pd.len() as int) =~= pd);
            assert(before + pd + id.take(0) =~= before + pd);
        }
        let mut k: usize = 0;
        while k < self.insts.len()
            invariant
                k <= self.insts.len(),
                pd == block_param_defs(self@),
                id == inst_defs(self@),
                out@ == before + pd + id.take(k as int),
            decreases self.insts.len() - k,
        {
            let n = &self.insts[k];
            out.push(Def { id: n.id, ty: n.ty.clone(), block: self.id });
            proof {
                assert(before + pd + id.take(k + 1) =~= (before + pd + id.take(k as int)).push(
                    id[k as int],
                ));
            }
            k = k + 1;
        }
        proof {
            assert(id.take(id.len() as int) =~= id);
        }
    }
}

/// A definition stands in the entry or in some block.
pub proof fn lemma_def_block(f: FuncView, i: int)
    requires
        0 <= i < defs(f).len(),
    ensures
        defs(f)[i].block == f.entry || has_block(f.blocks, defs(f)[i].block),
{
    let pd = param_defs(f.params, f.entry);
    if i >= pd.len() {
        lemma_upto_block(f.blocks, f.blocks.len(), i - pd.len());
    }
}

proof fn lemma_upto_block(blocks: Seq<BlockView>, n: nat, i: int)
    requires
        n <= blocks.len(),
        0 <= i < defs_upto(blocks, n).len(),
    ensures
        has_block(blocks, defs_upto(blocks, n)[i].block),
    decreases n,
{
    let before = defs_upto(blocks, (n - 1) as nat);
    if i < before.len() {
        lemma_upto_block(blocks, (n - 1) as nat, i);
    } else {
        assert(blocks[n - 1].id == defs_upto(blocks, n)[i].block);
    }
}

/// The last definition of a value is one of its definitions.
pub proof fn lemma_last_def(s: Seq<Def>, v: ValueId)
    ensures
        last_def(s, v) matches Some(d) ==> d.id == v && s.contains(d),
        (last_def(s, v) is Some) == (exists|i: int| 0 <= i < s.len() && (#[trigger] s[i]).id == v),
    decreases s.len(),
{
    if s.len() > 0 {
        lemma_last_def(s.drop_last(), v);
        let t = s.drop_last();
        assert(s[s.len() - 1] == s.last());
        if last_def(t, v) is Some {
            let d = last_def(t, v)->0;
            assert(s[t.index_of(d)] == d);
        }
        if exists|i: int| 0 <= i < s.len() && (#[trigger] s[i]).id == v {
            let i = choose|i: int| 0 <= i < s.len() && (#[trigger] s[i]).id == v;
            if i < s.len() - 1 {
                assert(t[i].id == v);
            }
        }
        if exists|i: int| 0 <= i < t.len() && (#[trigger] t[i]).id == v {
            let i = choose|i: int| 0 <= i < t.len() && (#[trigger] t[i]).id == v;
            assert(s[i].id == v);
        }
    }
}

/// How a global variable starts out.
#[derive(Debug, Clone, Copy, PartialEq, Eq, Structural)]
pub enum GlobalInit {
    /// All bytes zero.
    Zero,
}

/// A global variable.
#[derive(Debug)]
pub struct Global {
    pub name: String,
    pub ty: IrType,
    pub initializer: Option<GlobalInit>,
}

/// A compilation unit.
#[derive(Debug)]
pub struct Module {
    pub name: String,
    pub functions: Vec<Function>,
    pub globals: Vec<Global>,
    pub layout: TargetLayout,
}

/// The model of a global variable.
pub struct GlobalView {
    pub name: Seq<char>,
    pub ty: IrType,
    pub initializer: Option<GlobalInit>,
}

/// The model of a module.
pub struct ModuleView {
    pub name: Seq<char>,
    pub functions: Seq<FuncView>,
    pub globals: Seq<GlobalView>,
    pub layout: TargetLayout,
}

/// The models of a run of functions.
pub open spec fn functions_view(functions: Seq<Function>) -> Seq<FuncView> {
    Seq::new(functions.len(), |i: int| functions[i]@)
}

/// The models of a run of globals.
pub open spec fn globals_view(globals: Seq<Global>) -> Seq<GlobalView> {
    Seq::new(
        globals.len(),
        |i: int|
            GlobalView {
                name: globals[i].name@,
                ty: globals[i].ty,
                initializer: globals[i].initializer,
            },
    )
}

impl Module {
    /// The model of the module.
    pub open spec fn view(&self) -> ModuleView {
        ModuleView {
            name: self.name@,
            functions: functions_view(self.functions@),
            globals: globals_view(self.globals@),
            layout: self.layout,
        }
    }

    /// A module without functions and globals.
    pub fn new(name: String, layout: TargetLayout) -> (r: Module)
        ensures
            r@ == (ModuleView {
                name: name@,
                functions: Seq::empty(),
                globals: Seq::empty(),
                layout,
            }),
    {
        let r = Module { name, functions: Vec::new(), globals: Vec::new(), layout };
        proof {
            assert(r@.functions =~= Seq::<FuncView>::empty());
            assert(r@.globals =~= Seq::<GlobalView>::empty());
        }
        r
    }

    /// Adds a function behind the others.
    pub fn add_function(&mut self, func: Function)
        ensures
            final(self)@ == (ModuleView {
                functions: old(self)@.functions.push(func@),
                ..old(self)@
            }),
    {
        self.functions.push(func);
        proof {
            assert(self@.functions =~= old(self)@.functions.push(func@));
        }
    }

    /// Adds a global behind the others.
    pub fn add_global(&mut self, global: Global)
        ensures
            final(self)@ == (ModuleView {
                globals: old(self)@.globals.push(
                    GlobalView {
                        name: global.name@,
                        ty: global.ty,
                        initializer: global.initializer,
                    },
                ),
                ..old(self)@
            }),
    {
        self.globals.push(global);
        proof {
            assert(self@.globals =~= old(self)@.globals.push(
                GlobalView { name: global.name@, ty: global.ty, initializer: global.initializer },
            ));
        }
    }
}

} // verus!
