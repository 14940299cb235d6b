//! The typing rules, and that the verifier keeps to them.

use crate::ir::inst::{
    has_block, the_block, type_of, BlockId, FuncView, InstView, Op, RuntimeFunc, TermView, ValueId,
};
use crate::ir::types::{FloatWidth, IntWidth, IrType};
use crate::ir::verify::{
    arithmetic_shape_error, bitwise_msgs, branch_arg_msgs, branch_msgs, case_msgs, compare_msgs,
    consistency_msgs, edge_msgs, float_op_msgs, gather, int_op_msgs, is_vector_arith, lane_msgs,
    lemma_gather_empty, load_msgs, logical_msgs, operand_msgs, return_msgs, runtime_arg_msgs,
    runtime_msgs, runtime_params, runtime_result, select_msgs, shape_error, shape_msgs, store_msgs,
    vector_fma_msgs, vector_pair_msgs, vector_select_msgs, vector_unary_msgs,
};
use vstd::prelude::*;

verus! {

/// Has `v` this type, or none that is known?
pub open spec fn may_be(f: FuncView, v: ValueId, ty: IrType) -> bool {
    type_of(f, v) matches Some(t) ==> t == ty
}

/// Are the types of both values known?
pub open spec fn both_known(f: FuncView, a: ValueId, b: ValueId) -> bool {
    type_of(f, a) is Some && type_of(f, b) is Some
}

/// Is a type one of the integers?
pub open spec fn integer(ty: IrType) -> bool {
    ty == IrType::Int(IntWidth::I8) || ty == IrType::Int(IntWidth::I16) || ty == IrType::Int(
        IntWidth::I32,
    ) || ty == IrType::Int(IntWidth::I64) || ty == IrType::Int(IntWidth::I128)
}

/// Is a type one of the floating-point numbers?
pub open spec fn floating(ty: IrType) -> bool {
    ty == IrType::Float(FloatWidth::F32) || ty == IrType::Float(FloatWidth::F64)
}

/// How many bits a scalar takes in a vector.
pub open spec fn scalar_bits(ty: IrType) -> Option<int> {
    match ty {
        IrType::Int(IntWidth::I8) => Some(8),
        IrType::Int(IntWidth::I16) => Some(16),
        IrType::Int(IntWidth::I32) => Some(32),
        IrType::Int(IntWidth::I64) => Some(64),
        IrType::Int(IntWidth::I128) => Some(128),
        IrType::Float(FloatWidth::F32) => Some(32),
        IrType::Float(FloatWidth::F64) => Some(64),
        _ => None,
    }
}

/// Does a vector type fill a register of 128 bits with at least two scalars?
pub open spec fn fills_register(ty: IrType) -> bool {
    ty matches IrType::Vector { lanes, elem } ==> (scalar_bits(*elem) matches Some(b) && lanes >= 2
        && lanes * b == 128)
}

/// Is there vector arithmetic at a type?
pub open spec fn has_arithmetic(ty: IrType) -> bool {
    ty matches IrType::Vector { lanes, elem } && (integer(*elem) || floating(*elem)) && (lanes == 2
        || lanes == 4) && (scalar_bits(*elem) matches Some(b) && lanes * b == 128)
}

/// Is the vector operation one of arithmetic?
pub open spec fn computes_lanes(op: Op) -> bool {
    match op {
        Op::VAdd | Op::VSub | Op::VMul | Op::VDiv | Op::VMin | Op::VMax => true,
        Op::VFma | Op::VNeg | Op::VAbs | Op::VSqrt => true,
        _ => false,
    }
}

/// Is `ty` a pointer to bytes?
pub open spec fn byte_pointer(ty: IrType) -> bool {
    ty matches IrType::Ptr(inner) && *inner == IrType::Int(IntWidth::I8)
}

/// May argument `k` of a runtime call be of type `ty`?
pub open spec fn runtime_takes(rf: RuntimeFunc, k: int, ty: IrType) -> bool {
    match rf {
        RuntimeFunc::PrintInt => ty == IrType::Int(IntWidth::I32) || ty == IrType::Int(
            IntWidth::I64,
        ) || ty == IrType::Int(IntWidth::I128),
        RuntimeFunc::PrintReal => ty == IrType::Float(FloatWidth::F32),
        RuntimeFunc::PrintLogical => ty == IrType::Int(IntWidth::I32),
        RuntimeFunc::Allocate | RuntimeFunc::CheckBounds => ty == IrType::Int(IntWidth::I64),
        RuntimeFunc::Deallocate => ty is Ptr,
        RuntimeFunc::PrintString | RuntimeFunc::StringConcat | RuntimeFunc::StringCopy
        | RuntimeFunc::StringCompare => if k % 2 == 0 {
            byte_pointer(ty)
        } else {
            ty == IrType::Int(IntWidth::I64)
        },
        RuntimeFunc::PrintNewline | RuntimeFunc::Stop | RuntimeFunc::ErrorStop => false,
    }
}

/// How many arguments a runtime call has.
pub open spec fn runtime_arity(rf: RuntimeFunc) -> nat {
    match rf {
        RuntimeFunc::PrintNewline | RuntimeFunc::Stop | RuntimeFunc::ErrorStop => 0,
        RuntimeFunc::PrintInt | RuntimeFunc::PrintReal | RuntimeFunc::PrintLogical => 1,
        RuntimeFunc::Allocate | RuntimeFunc::Deallocate => 1,
        RuntimeFunc::PrintString => 2,
        RuntimeFunc::CheckBounds => 3,
        RuntimeFunc::StringConcat | RuntimeFunc::StringCopy | RuntimeFunc::StringCompare => 4,
    }
}

/// May the result of a runtime call be of type `ty`?
pub open spec fn runtime_gives(rf: RuntimeFunc, ty: IrType) -> bool {
    match rf {
        RuntimeFunc::Allocate | RuntimeFunc::StringConcat => byte_pointer(ty),
        RuntimeFunc::StringCompare => ty == IrType::Int(IntWidth::I32),
        _ => ty == IrType::Void,
    }
}

/// The typing rules for instructions. Where the type of an operand is not known,
/// a rule says nothing of it, but for integer arithmetic.
pub open spec fn well_typed(f: FuncView, i: InstView) -> bool {
    let a = i.kind.args[0];
    let b = i.kind.args[1];
    let c = i.kind.args[2];
    &&& fills_register(i.ty)
    &&& computes_lanes(i.kind.op) ==> has_arithmetic(i.ty)
    &&& match i.kind.op {
        Op::IAdd | Op::ISub | Op::IMul | Op::IDiv | Op::IMod => integer(i.ty) && type_of(f, a)
            == Some(i.ty) && type_of(f, b) == Some(i.ty),
        Op::FAdd | Op::FSub | Op::FMul | Op::FDiv | Op::FPow => both_known(f, a, b) ==> floating(
            i.ty,
        ) && type_of(f, a) == Some(i.ty) && type_of(f, b) == Some(i.ty),
        Op::Store => match type_of(f, b) {
            Some(IrType::Ptr(inner)) => may_be(f, a, *inner) || *inner == IrType::Int(IntWidth::I8)
                || (*inner is Ptr && type_of(f, a)->0 is Ptr),
            Some(_) => false,
            None => true,
        },
        Op::Load => type_of(f, a) matches Some(t) ==> t is Ptr,
        Op::BitAnd | Op::BitOr | Op::BitXor | Op::Shl | Op::LShr | Op::AShr | Op::ICmp(_) => both_known(
            f,
            a,
            b,
        ) ==> integer(type_of(f, a)->0) && type_of(f, a) == type_of(f, b),
        Op::And | Op::Or => both_known(f, a, b) ==> type_of(f, a) == Some(IrType::Bool) && type_of(f, b)
            == Some(IrType::Bool),
        Op::Select => may_be(f, a, IrType::Bool) && (both_known(f, b, c) ==> type_of(f, b) == Some(
            i.ty,
        ) && type_of(f, c) == Some(i.ty)),
        Op::RuntimeCall(rf) => {
            &&& runtime_gives(rf, i.ty)
            &&& i.kind.args.len() == runtime_arity(rf)
            &&& forall|k: int|
                0 <= k < i.kind.args.len() ==> (type_of(f, #[trigger] i.kind.args[k]) matches Some(t)
                    ==> runtime_takes(rf, k, t))
        },
        Op::VAdd | Op::VSub | Op::VMul | Op::VDiv | Op::VMin | Op::VMax => both_known(f, a, b)
            ==> type_of(f, a) == Some(i.ty) && type_of(f, b) == Some(i.ty),
        Op::VFma => both_known(f, a, b) && type_of(f, c) is Some ==> type_of(f, a) == Some(i.ty)
            && type_of(f, b) == Some(i.ty) && type_of(f, c) == Some(i.ty),
        Op::VSelect => both_known(f, b, c) ==> type_of(f, b) == Some(i.ty) && type_of(f, c) == Some(i.ty),
        Op::VNeg | Op::VAbs | Op::VSqrt => may_be(f, a, i.ty),
        Op::VExtract(lane) | Op::VInsert(lane) => type_of(f, a) matches Some(
            IrType::Vector { lanes, .. },
        ) ==> lane < lanes,
        _ => true,
    }
}

proof fn lemma_shape(i: InstView)
    ensures
        (shape_msgs(i).len() == 0) <==> fills_register(i.ty) && (computes_lanes(i.kind.op)
            ==> has_arithmetic(i.ty)),
{
    assert(is_vector_arith(i.kind.op) == computes_lanes(i.kind.op));
    assert(shape_error(i.ty) is None <==> fills_register(i.ty)) by {
        if let IrType::Vector { lanes, elem } = i.ty {
            match *elem {
                IrType::Int(w) => {
                    match w {
                        IntWidth::I8 => assert(lanes * w.spec_bits() == lanes * 8),
                        IntWidth::I16 => assert(lanes * w.spec_bits() == lanes * 16),
                        IntWidth::I32 => assert(lanes * w.spec_bits() == lanes * 32),
                        IntWidth::I64 => assert(lanes * w.spec_bits() == lanes * 64),
                        IntWidth::I128 => assert(lanes * w.spec_bits() == lanes * 128),
                    }
                },
                IrType::Float(w) => {
                    match w {
                        FloatWidth::F32 => assert(lanes * w.spec_bits() == lanes * 32),
                        FloatWidth::F64 => assert(lanes * w.spec_bits() == lanes * 64),
                    }
                },
                _ => {},
            }
        }
    }
    assert(arithmetic_shape_error(i.ty) is None <==> has_arithmetic(i.ty)) by {
        if let IrType::Vector { lanes, elem } = i.ty {
            match *elem {
                IrType::Int(w) => {
                    assert(integer(*elem));
                },
                IrType::Float(w) => {
                    assert(floating(*elem));
                },
                _ => {},
            }
        }
    }
}

proof fn lemma_kinds(ty: IrType)
    ensures
        ty is Int <==> integer(ty),
        ty is Float <==> floating(ty),
{
    if let IrType::Int(w) = ty {
        assert(integer(ty));
    }
    if let IrType::Float(w) = ty {
        assert(floating(ty));
    }
}

proof fn lemma_runtime(f: FuncView, i: InstView, rf: RuntimeFunc)
    requires
        i.kind.op == Op::RuntimeCall(rf),
    ensures
        (runtime_msgs(f, i.id, i.ty, rf, i.kind.args).len() == 0) <==> {
            &&& runtime_gives(rf, i.ty)
            &&& i.kind.args.len() == runtime_arity(rf)
            &&& forall|k: int|
                0 <= k < i.kind.args.len() ==> (type_of(f, #[trigger] i.kind.args[k]) matches Some(t)
                    ==> runtime_takes(rf, k, t))
        },
{
    reveal(runtime_msgs);
    let args = i.kind.args;
    let each = runtime_arg_msgs(f, rf, i.id, args);
    assert(runtime_params(rf).len() == runtime_arity(rf));
    assert(runtime_result(rf).accepts(i.ty) == runtime_gives(rf, i.ty));
    assert forall|k: int, ty: IrType| 0 <= k < runtime_arity(rf) implies #[trigger] runtime_params(
        rf,
    )[k].accepts(ty) == runtime_takes(rf, k, ty) by {
        assert(k == 0 || k == 1 || k == 2 || k == 3);
    }
    let n = crate::ir::verify::lesser(args.len(), runtime_params(rf).len());
    lemma_gather_empty(n, each);
    assert forall|k: int| 0 <= k < n implies ((#[trigger] each(k)).len() == 0 <==> (type_of(
        f,
        args[k],
    ) matches Some(t) ==> runtime_takes(rf, k, t))) by {
        if let Some(t) = type_of(f, args[k]) {
            assert(runtime_params(rf)[k].accepts(t) == runtime_takes(rf, k, t));
        }
    }
    if args.len() == runtime_arity(rf) {
        if gather(n, each).len() == 0 {
            assert forall|k: int| 0 <= k < args.len() implies (type_of(f, #[trigger] args[k]) matches Some(t)
                ==> runtime_takes(rf, k, t)) by {
                assert(each(k).len() == 0);
            }
        }
    }
}

/// The verifier finds nothing wrong with an instruction exactly where the typing
/// rules allow it.
#[verifier::rlimit(60)]
#[verifier::spinoff_prover]
pub proof fn typing_is_checked(f: FuncView, i: InstView)
    ensures
        (consistency_msgs(f, i).len() == 0) <==> well_typed(f, i),
{
    lemma_shape(i);
    assert(consistency_msgs(f, i).len() == shape_msgs(i).len() + operand_msgs(f, i).len());
    reveal(int_op_msgs);
    reveal(float_op_msgs);
    reveal(store_msgs);
    reveal(load_msgs);
    reveal(bitwise_msgs);
    reveal(logical_msgs);
    reveal(compare_msgs);
    reveal(select_msgs);
    reveal(vector_pair_msgs);
    reveal(vector_fma_msgs);
    reveal(vector_select_msgs);
    reveal(vector_unary_msgs);
    reveal(lane_msgs);
    lemma_kinds(i.ty);
    if let Some(t) = type_of(f, i.kind.args[0]) {
        lemma_kinds(t);
    }
    if let Some(t) = type_of(f, i.kind.args[1]) {
        lemma_kinds(t);
    }
    match i.kind.op {
        Op::RuntimeCall(rf) => lemma_runtime(f, i, rf),
        _ => {},
    }
}

/// Does a branch hand over what the block takes?
pub open spec fn hands_over(f: FuncView, dest: BlockId, args: Seq<ValueId>) -> bool {
    has_block(f.blocks, dest) ==> {
        let b = the_block(f.blocks, dest);
        &&& args.len() == b.params.len()
        &&& forall|k: int|
            0 <= k < args.len() ==> may_be(f, #[trigger] args[k], b.params[k].ty)
    }
}

/// Does a block take nothing?
pub open spec fn takes_nothing(f: FuncView, dest: BlockId) -> bool {
    has_block(f.blocks, dest) ==> the_block(f.blocks, dest).params.len() == 0
}

/// The typing rules for branches.
pub open spec fn branch_is_typed(f: FuncView, t: TermView) -> bool {
    match t {
        TermView::Branch(dest, args) => hands_over(f, dest, args),
        TermView::CondBranch { cond, true_dest, true_args, false_dest, false_args } => {
            &&& type_of(f, cond) == Some(IrType::Bool)
            &&& hands_over(f, true_dest, true_args)
            &&& hands_over(f, false_dest, false_args)
        },
        TermView::Switch { cases, default, .. } => {
            &&& takes_nothing(f, default)
            &&& forall|k: int| 0 <= k < cases.len() ==> takes_nothing(f, (#[trigger] cases[k]).1)
        },
        _ => true,
    }
}

/// The typing rules for returns.
pub open spec fn return_is_typed(f: FuncView, t: TermView) -> bool {
    match t {
        TermView::Return(None) => f.return_type == IrType::Void,
        TermView::Return(Some(v)) => f.return_type != IrType::Void && type_of(f, v) == Some(
            f.return_type,
        ),
        _ => true,
    }
}

proof fn lemma_edge(f: FuncView, name: Seq<char>, dest: BlockId, args: Seq<ValueId>)
    ensures
        (edge_msgs(f, name, dest, args).len() == 0) <==> hands_over(f, dest, args),
{
    if has_block(f.blocks, dest) {
        let b = the_block(f.blocks, dest);
        let each = branch_arg_msgs(f, name, b, args);
        lemma_gather_empty(args.len(), each);
        assert forall|k: int| 0 <= k < args.len() implies ((#[trigger] each(k)).len() == 0 <==> may_be(
            f,
            args[k],
            b.params[k].ty,
        )) by {}
        if gather(args.len(), each).len() == 0 {
            assert forall|k: int| 0 <= k < args.len() implies may_be(
                f,
                #[trigger] args[k],
                b.params[k].ty,
            ) by {
                assert(each(k).len() == 0);
            }
        }
    }
}

/// The verifier finds nothing wrong with a terminator exactly where the typing
/// rules allow it.
pub proof fn terminators_are_checked(f: FuncView, t: TermView, name: Seq<char>)
    ensures
        (branch_msgs(f, t, name).len() == 0) <==> branch_is_typed(f, t),
        (return_msgs(f, t, name).len() == 0) <==> return_is_typed(f, t),
{
    match t {
        TermView::Branch(dest, args) => lemma_edge(f, name, dest, args),
        TermView::CondBranch { cond, true_dest, true_args, false_dest, false_args } => {
            lemma_edge(f, name, true_dest, true_args);
            lemma_edge(f, name, false_dest, false_args);
        },
        TermView::Switch { selector, cases, default } => {
            let each = case_msgs(f, cases);
            lemma_gather_empty(cases.len(), each);
            assert forall|k: int| 0 <= k < cases.len() implies ((#[trigger] each(k)).len() == 0
                <==> takes_nothing(f, cases[k].1)) by {}
            if gather(cases.len(), each).len() == 0 {
                assert forall|k: int| 0 <= k < cases.len() implies takes_nothing(
                    f,
                    (#[trigger] cases[k]).1,
                ) by {
                    assert(each(k).len() == 0);
                }
            }
        },
        _ => {},
    }
}

} // verus!
