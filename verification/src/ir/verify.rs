//! The IR verifier: well-formedness of functions and modules.
//!
//! It checks the block structure, definitions and uses, the registered types,
//! the types of branches, returns and instructions, and SSA dominance.

use crate::ids::{list_contains, same_id, IdMap, IdSet};
use crate::ir::cfg::targets_of;
use crate::ir::dom::{compute_dominators, dominates, has_dom_entry};
use crate::ir::inst::{
    definitions, defs, has_block, is_first_block, last_def, lemma_block_pos, lemma_def_block,
    the_block, type_of, BasicBlock, BlockId, BlockView, Def, FuncView, Function, Inst, InstKind,
    InstView, Module, ModuleView, Op, RuntimeFunc, TermView, Terminator, ValueId,
};
use crate::ir::types::{
    type_fits, type_text, FloatWidth, IntWidth, IrType, TypeSizeError,
};
use crate::ir::walk::{inst_uses, term_uses, terminator_uses};
use crate::text::{dec, push_count, push_num, text};
use vstd::prelude::*;
use vstd::string::*;

verus! {

/// A finding of the verifier.
#[derive(Debug)]
pub struct VerifyError {
    pub msg: String,
}

impl VerifyError {
    /// The finding as one line of text.
    pub fn display(&self) -> (r: String)
        ensures
            r@ == "IR verify: "@ + self.msg@,
    {
        let mut s = text("IR verify: ");
        s.append(self.msg.as_str());
        s
    }
}

/// The messages of findings.
pub open spec fn msgs(errors: Seq<VerifyError>) -> Seq<Seq<char>> {
    Seq::new(errors.len(), |i: int| errors[i].msg@)
}

/// What `f` gives for each number below `n`, one after the other.
pub open spec fn gather(n: nat, f: spec_fn(int) -> Seq<Seq<char>>) -> Seq<Seq<char>>
    decreases n,
{
    if n == 0 {
        Seq::empty()
    } else {
        gather((n - 1) as nat, f) + f(n - 1)
    }
}

proof fn lemma_gather_step(start: Seq<Seq<char>>, n: nat, f: spec_fn(int) -> Seq<Seq<char>>)
    ensures
        start + gather(n, f) + f(n as int) == start + gather(n + 1, f),
{
    assert(start + gather(n, f) + f(n as int) =~= start + (gather(n, f) + f(n as int)));
}

proof fn lemma_gather_none(start: Seq<Seq<char>>, f: spec_fn(int) -> Seq<Seq<char>>)
    ensures
        start + gather(0, f) == start,
{
    assert(start + gather(0, f) =~= start);
}

/// What has been gathered is nothing exactly where each part is nothing.
pub proof fn lemma_gather_empty(n: nat, f: spec_fn(int) -> Seq<Seq<char>>)
    ensures
        (gather(n, f).len() == 0) == (forall|i: int| 0 <= i < n ==> (#[trigger] f(i)).len() == 0),
    decreases n,
{
    if n > 0 {
        lemma_gather_empty((n - 1) as nat, f);
        assert(gather(n, f).len() == gather((n - 1) as nat, f).len() + f(n - 1).len());
    }
}

/// `m` alone if `cond` holds, else nothing.
pub open spec fn only_if(cond: bool, m: Seq<char>) -> Seq<Seq<char>> {
    if cond {
        seq![m]
    } else {
        Seq::empty()
    }
}

fn report(errors: &mut Vec<VerifyError>, msg: String)
    ensures
        msgs(final(errors)@) == msgs(old(errors)@) + seq![msg@],
{
    errors.push(VerifyError { msg });
    proof {
        assert(msgs(errors@) =~= msgs(old(errors)@) + seq![msg@]);
    }
}

proof fn lemma_nothing(s: Seq<Seq<char>>)
    ensures
        s + Seq::<Seq<char>>::empty() == s,
{
    assert(s + Seq::<Seq<char>>::empty() =~= s);
}

/// Why a vector type has no register shape: it fills 128 bits with 2, 4, 8 or
/// 16 scalars.
pub open spec fn shape_error(ty: IrType) -> Option<Seq<char>> {
    match ty {
        IrType::Vector { lanes, elem } => {
            let bits: Option<u32> = match *elem {
                IrType::Int(w) => Some(w.spec_bits()),
                IrType::Float(w) => Some(w.spec_bits()),
                _ => None,
            };
            match bits {
                None => Some(
                    "vector element type must be scalar int/float, got "@ + type_text(*elem),
                ),
                Some(b) => if lanes != 2 && lanes != 4 && lanes != 8 && lanes != 16 {
                    Some(
                        "vector lane count "@ + dec(lanes as nat)
                            + " unsupported (NEON: 2/4/8/16)"@,
                    )
                } else if lanes * b != 128 {
                    Some(
                        "vector total width "@ + dec((lanes * b) as nat) + "b must be 128 ("@ + dec(
                            lanes as nat,
                        ) + "× "@ + dec(b as nat) + "b)"@,
                    )
                } else {
                    None
                },
            }
        },
        _ => None,
    }
}

/// Is `r` the text, if there is one?
pub open spec fn same_note(r: Option<String>, m: Option<Seq<char>>) -> bool {
    match (r, m) {
        (Some(s), Some(t)) => s@ == t,
        (None, None) => true,
        _ => false,
    }
}

/// Why a vector type has no register shape.
pub fn vector_shape_error(ty: &IrType) -> (r: Option<String>)
    ensures
        same_note(r, shape_error(*ty)),
{
    match ty {
        IrType::Vector { lanes, elem } => {
            let lanes: u32 = *lanes as u32;
            let elem_bits: u32 = match &**elem {
                IrType::Int(w) => w.bits(),
                IrType::Float(w) => w.bits(),
                other => {
                    let mut s = text("vector element type must be scalar int/float, got ");
                    s.append(other.display().as_str());
                    return Some(s);
                },
            };
            if lanes != 2 && lanes != 4 && lanes != 8 && lanes != 16 {
                let mut s = text("vector lane count ");
                push_num(&mut s, lanes);
                s.append(" unsupported (NEON: 2/4/8/16)");
                return Some(s);
            }
            let total: u32 = lanes * elem_bits;
            if total != 128 {
                let mut s = text("vector total width ");
                push_num(&mut s, total);
                s.append("b must be 128 (");
                push_num(&mut s, lanes);
                s.append("× ");
                push_num(&mut s, elem_bits);
                s.append("b)");
                return Some(s);
            }
            None
        },
        _ => None,
    }
}

/// Does the back end add, multiply and so on at this shape?
pub open spec fn arithmetic_shape(ty: IrType) -> bool {
    match ty {
        IrType::Vector { lanes, elem } => (lanes == 4 && (*elem == IrType::Int(IntWidth::I32)
            || *elem == IrType::Float(FloatWidth::F32))) || (lanes == 2 && (*elem == IrType::Int(
            IntWidth::I64,
        ) || *elem == IrType::Float(FloatWidth::F64))),
        _ => false,
    }
}

/// Why vector arithmetic is not available at a type.
pub open spec fn arithmetic_shape_error(ty: IrType) -> Option<Seq<char>> {
    if arithmetic_shape(ty) {
        None
    } else {
        Some(
            "vector arithmetic uses unsupported shape "@ + type_text(ty)
                + "; expected <4 x i32>, <2 x i64>, <4 x f32>, or <2 x f64>"@,
        )
    }
}

/// Why vector arithmetic is not available at a type.
pub fn vector_arithmetic_shape_error(ty: &IrType) -> (r: Option<String>)
    ensures
        same_note(r, arithmetic_shape_error(*ty)),
{
    let supported: bool = match ty {
        IrType::Vector { lanes, elem } => match &**elem {
            IrType::Int(IntWidth::I32) => *lanes == 4,
            IrType::Float(FloatWidth::F32) => *lanes == 4,
            IrType::Int(IntWidth::I64) => *lanes == 2,
            IrType::Float(FloatWidth::F64) => *lanes == 2,
            _ => false,
        },
        _ => false,
    };
    if supported {
        None
    } else {
        let mut s = text("vector arithmetic uses unsupported shape ");
        s.append(ty.display().as_str());
        s.append("; expected <4 x i32>, <2 x i64>, <4 x f32>, or <2 x f64>");
        Some(s)
    }
}

/// The kinds of argument and result of the runtime library.
#[derive(Debug, Clone, Copy, PartialEq, Eq, Structural)]
pub enum RuntimeAbiType {
    Void,
    I32,
    I64,
    F32,
    BytePtr,
    DataPtr,
    PrintableInt,
}

impl RuntimeAbiType {
    /// Is a value of type `ty` passed in this way?
    pub open spec fn accepts(self, ty: IrType) -> bool {
        match self {
            RuntimeAbiType::Void => ty == IrType::Void,
            RuntimeAbiType::I32 => ty == IrType::Int(IntWidth::I32),
            RuntimeAbiType::I64 => ty == IrType::Int(IntWidth::I64),
            RuntimeAbiType::F32 => ty == IrType::Float(FloatWidth::F32),
            RuntimeAbiType::BytePtr => ty matches IrType::Ptr(inner) && *inner == IrType::Int(
                IntWidth::I8,
            ),
            RuntimeAbiType::DataPtr => ty is Ptr,
            RuntimeAbiType::PrintableInt => ty == IrType::Int(IntWidth::I32) || ty == IrType::Int(
                IntWidth::I64,
            ) || ty == IrType::Int(IntWidth::I128),
        }
    }

    /// Is a value of type `ty` passed in this way?
    pub fn matches(self, ty: &IrType) -> (r: bool)
        ensures
            r == self.accepts(*ty),
    {
        match (self, ty) {
            (RuntimeAbiType::Void, IrType::Void) => true,
            (RuntimeAbiType::I32, IrType::Int(IntWidth::I32)) => true,
            (RuntimeAbiType::I64, IrType::Int(IntWidth::I64)) => true,
            (RuntimeAbiType::F32, IrType::Float(FloatWidth::F32)) => true,
            (RuntimeAbiType::BytePtr, IrType::Ptr(inner)) => matches!(
                **inner,
                IrType::Int(IntWidth::I8)
            ),
            (RuntimeAbiType::DataPtr, IrType::Ptr(_)) => true,
            (RuntimeAbiType::PrintableInt, IrType::Int(IntWidth::I32)) => true,
            (RuntimeAbiType::PrintableInt, IrType::Int(IntWidth::I64)) => true,
            (RuntimeAbiType::PrintableInt, IrType::Int(IntWidth::I128)) => true,
            _ => false,
        }
    }

    /// How messages name it.
    pub open spec fn spec_description(self) -> Seq<char> {
        match self {
            RuntimeAbiType::Void => "void"@,
            RuntimeAbiType::I32 => "i32"@,
            RuntimeAbiType::I64 => "i64"@,
            RuntimeAbiType::F32 => "f32"@,
            RuntimeAbiType::BytePtr => "ptr<i8>"@,
            RuntimeAbiType::DataPtr => "a data pointer"@,
            RuntimeAbiType::PrintableInt => "i32, i64, or i128"@,
        }
    }

    /// How messages name it.
    pub fn description(self) -> (r: &'static str)
        ensures
            r@ == self.spec_description(),
    {
        match self {
            RuntimeAbiType::Void => "void",
            RuntimeAbiType::I32 => "i32",
            RuntimeAbiType::I64 => "i64",
            RuntimeAbiType::F32 => "f32",
            RuntimeAbiType::BytePtr => "ptr<i8>",
            RuntimeAbiType::DataPtr => "a data pointer",
            RuntimeAbiType::PrintableInt => "i32, i64, or i128",
        }
    }
}

/// The parameters of a runtime entry point.
pub open spec fn runtime_params(rf: RuntimeFunc) -> Seq<RuntimeAbiType> {
    match rf {
        RuntimeFunc::PrintInt => seq![RuntimeAbiType::PrintableInt],
        RuntimeFunc::PrintReal => seq![RuntimeAbiType::F32],
        RuntimeFunc::PrintString => seq![RuntimeAbiType::BytePtr, RuntimeAbiType::I64],
        RuntimeFunc::PrintLogical => seq![RuntimeAbiType::I32],
        RuntimeFunc::PrintNewline => seq![],
        RuntimeFunc::Allocate => seq![RuntimeAbiType::I64],
        RuntimeFunc::Deallocate => seq![RuntimeAbiType::DataPtr],
        RuntimeFunc::StringConcat | RuntimeFunc::StringCopy | RuntimeFunc::StringCompare => seq![
            RuntimeAbiType::BytePtr,
            RuntimeAbiType::I64,
            RuntimeAbiType::BytePtr,
            RuntimeAbiType::I64,
        ],
        RuntimeFunc::Stop | RuntimeFunc::ErrorStop => seq![],
        RuntimeFunc::CheckBounds => seq![
            RuntimeAbiType::I64,
            RuntimeAbiType::I64,
            RuntimeAbiType::I64,
        ],
    }
}

/// The result of a runtime entry point.
pub open spec fn runtime_result(rf: RuntimeFunc) -> RuntimeAbiType {
    match rf {
        RuntimeFunc::Allocate | RuntimeFunc::StringConcat => RuntimeAbiType::BytePtr,
        RuntimeFunc::StringCompare => RuntimeAbiType::I32,
        _ => RuntimeAbiType::Void,
    }
}

/// The parameters and the result of a runtime entry point.
pub fn runtime_signature(rf: &RuntimeFunc) -> (r: (Vec<RuntimeAbiType>, RuntimeAbiType))
    ensures
        r.0@ == runtime_params(*rf),
        r.1 == runtime_result(*rf),
{
    let r: (Vec<RuntimeAbiType>, RuntimeAbiType) = match rf {
        RuntimeFunc::PrintInt => (vec![RuntimeAbiType::PrintableInt], RuntimeAbiType::Void),
        RuntimeFunc::PrintReal => (vec![RuntimeAbiType::F32], RuntimeAbiType::Void),
        RuntimeFunc::PrintString => (
            vec![RuntimeAbiType::BytePtr, RuntimeAbiType::I64],
            RuntimeAbiType::Void,
        ),
        RuntimeFunc::PrintLogical => (vec![RuntimeAbiType::I32], RuntimeAbiType::Void),
        RuntimeFunc::PrintNewline => (vec![], RuntimeAbiType::Void),
        RuntimeFunc::Allocate => (vec![RuntimeAbiType::I64], RuntimeAbiType::BytePtr),
        RuntimeFunc::Deallocate => (vec![RuntimeAbiType::DataPtr], RuntimeAbiType::Void),
        RuntimeFunc::StringConcat => (string_pair(), RuntimeAbiType::BytePtr),
        RuntimeFunc::StringCopy => (string_pair(), RuntimeAbiType::Void),
        RuntimeFunc::StringCompare => (string_pair(), RuntimeAbiType::I32),
        RuntimeFunc::Stop => (vec![], RuntimeAbiType::Void),
        RuntimeFunc::ErrorStop => (vec![], RuntimeAbiType::Void),
        RuntimeFunc::CheckBounds => (
            vec![RuntimeAbiType::I64, RuntimeAbiType::I64, RuntimeAbiType::I64],
            RuntimeAbiType::Void,
        ),
    };
    assert(r.0@ =~= runtime_params(*rf));
    r
}

fn string_pair() -> (r: Vec<RuntimeAbiType>)
    ensures
        r@ == seq![
            RuntimeAbiType::BytePtr,
            RuntimeAbiType::I64,
            RuntimeAbiType::BytePtr,
            RuntimeAbiType::I64,
        ],
{
    let r = vec![
        RuntimeAbiType::BytePtr,
        RuntimeAbiType::I64,
        RuntimeAbiType::BytePtr,
        RuntimeAbiType::I64,
    ];
    assert(r@ =~= seq![
        RuntimeAbiType::BytePtr,
        RuntimeAbiType::I64,
        RuntimeAbiType::BytePtr,
        RuntimeAbiType::I64,
    ]);
    r
}

/// How messages name a runtime entry point.
pub open spec fn runtime_name(rf: RuntimeFunc) -> Seq<char> {
    match rf {
        RuntimeFunc::PrintInt => "PrintInt"@,
        RuntimeFunc::PrintReal => "PrintReal"@,
        RuntimeFunc::PrintString => "PrintString"@,
        RuntimeFunc::PrintLogical => "PrintLogical"@,
        RuntimeFunc::PrintNewline => "PrintNewline"@,
        RuntimeFunc::Allocate => "Allocate"@,
        RuntimeFunc::Deallocate => "Deallocate"@,
        RuntimeFunc::StringConcat => "StringConcat"@,
        RuntimeFunc::StringCopy => "StringCopy"@,
        RuntimeFunc::StringCompare => "StringCompare"@,
        RuntimeFunc::Stop => "Stop"@,
        RuntimeFunc::ErrorStop => "ErrorStop"@,
        RuntimeFunc::CheckBounds => "CheckBounds"@,
    }
}

fn name_of_runtime(rf: &RuntimeFunc) -> (r: &'static str)
    ensures
        r@ == runtime_name(*rf),
{
    match rf {
        RuntimeFunc::PrintInt => "PrintInt",
        RuntimeFunc::PrintReal => "PrintReal",
        RuntimeFunc::PrintString => "PrintString",
        RuntimeFunc::PrintLogical => "PrintLogical",
        RuntimeFunc::PrintNewline => "PrintNewline",
        RuntimeFunc::Allocate => "Allocate",
        RuntimeFunc::Deallocate => "Deallocate",
        RuntimeFunc::StringConcat => "StringConcat",
        RuntimeFunc::StringCopy => "StringCopy",
        RuntimeFunc::StringCompare => "StringCompare",
        RuntimeFunc::Stop => "Stop",
        RuntimeFunc::ErrorStop => "ErrorStop",
        RuntimeFunc::CheckBounds => "CheckBounds",
    }
}

/// How messages open that speak of a runtime call.
pub open spec fn runtime_call_text(rf: RuntimeFunc, id: ValueId) -> Seq<char> {
    "runtime call "@ + runtime_name(rf) + " %"@ + dec(id.0 as nat)
}

fn runtime_call_note(rf: &RuntimeFunc, id: ValueId) -> (r: String)
    ensures
        r@ == runtime_call_text(*rf, id),
{
    let mut s = text("runtime call ");
    s.append(name_of_runtime(rf));
    s.append(" %");
    push_num(&mut s, id.0);
    s
}

/// What is wrong with one argument of a runtime call.
pub open spec fn runtime_arg_msgs(
    f: FuncView,
    rf: RuntimeFunc,
    id: ValueId,
    args: Seq<ValueId>,
) -> spec_fn(int) -> Seq<Seq<char>> {
    |i: int|
        match type_of(f, args[i]) {
            Some(actual) => only_if(
                !runtime_params(rf)[i].accepts(actual),
                runtime_call_text(rf, id) + " argument "@ + dec(i as nat)
                    + " type mismatch: expected "@ + runtime_params(rf)[i].spec_description()
                    + ", got "@ + type_text(actual),
            ),
            None => Seq::empty(),
        }
}

/// The smaller of two numbers.
pub open spec fn lesser(a: nat, b: nat) -> nat {
    if a <= b {
        a
    } else {
        b
    }
}

/// What is wrong with a runtime call.
#[verifier::opaque]
pub open spec fn runtime_msgs(
    f: FuncView,
    id: ValueId,
    ty: IrType,
    rf: RuntimeFunc,
    args: Seq<ValueId>,
) -> Seq<Seq<char>> {
    only_if(
        !runtime_result(rf).accepts(ty),
        runtime_call_text(rf, id) + " result type mismatch: expected "@ + runtime_result(
            rf,
        ).spec_description() + ", got "@ + type_text(ty),
    ) + only_if(
        args.len() != runtime_params(rf).len(),
        runtime_call_text(rf, id) + " argument count mismatch: expected "@ + dec(
            runtime_params(rf).len(),
        ) + ", got "@ + dec(args.len()),
    ) + gather(lesser(args.len(), runtime_params(rf).len()), runtime_arg_msgs(f, rf, id, args))
}

fn check_runtime_call_signature(
    func: &Function,
    id: ValueId,
    ty: &IrType,
    rf: &RuntimeFunc,
    args: &Vec<ValueId>,
    errors: &mut Vec<VerifyError>,
)
    ensures
        msgs(final(errors)@) == msgs(old(errors)@) + runtime_msgs(func@, id, *ty, *rf, args@),
{
    proof {
        reveal(runtime_msgs);
    }
    let ghost start = msgs(errors@);
    let (params, result) = runtime_signature(rf);
    if !result.matches(ty) {
        let mut s = runtime_call_note(rf, id);
        s.append(" result type mismatch: expected ");
        s.append(result.description());
        s.append(", got ");
        s.append(ty.display().as_str());
        report(errors, s);
    }
    let ghost first = only_if(
        !runtime_result(*rf).accepts(*ty),
        runtime_call_text(*rf, id) + " result type mismatch: expected "@ + runtime_result(
            *rf,
        ).spec_description() + ", got "@ + type_text(*ty),
    );
    proof {
        lemma_nothing(start);
        assert(msgs(errors@) == start + first);
    }
    if args.len() != params.len() {
        let mut s = runtime_call_note(rf, id);
        s.append(" argument count mismatch: expected ");
        push_count(&mut s, params.len());
        s.append(", got ");
        push_count(&mut s, args.len());
        report(errors, s);
    }
    let ghost second = only_if(
        args@.len() != runtime_params(*rf).len(),
        runtime_call_text(*rf, id) + " argument count mismatch: expected "@ + dec(
            runtime_params(*rf).len(),
        ) + ", got "@ + dec(args@.len()),
    );
    let ghost each = runtime_arg_msgs(func@, *rf, id, args@);
    proof {
        lemma_nothing(start + first);
        assert(msgs(errors@) == start + first + second);
        lemma_gather_none(start + first + second, each);
    }
    let mut i: usize = 0;
    while i < args.len() && i < params.len()
        invariant
            i <= args.len(),
            i <= params.len(),
            params@ == runtime_params(*rf),
            each == runtime_arg_msgs(func@, *rf, id, args@),
            msgs(errors@) == start + first + second + gather(i as nat, each),
        decreases args.len() - i,
    {
        let ghost before = msgs(errors@);
        match func.value_type(args[i]) {
            Some(actual) => {
                if !params[i].matches(&actual) {
                    let mut s = runtime_call_note(rf, id);
                    s.append(" argument ");
                    push_count(&mut s, i);
                    s.append(" type mismatch: expected ");
                    s.append(params[i].description());
                    s.append(", got ");
                    s.append(actual.display().as_str());
                    report(errors, s);
                }
            },
            None => {},
        }
        proof {
            lemma_nothing(before);
            assert(msgs(errors@) == before + each(i as int));
            lemma_gather_step(start + first + second, i as nat, each);
        }
        i = i + 1;
    }
    proof {
        assert(i == lesser(args@.len(), runtime_params(*rf).len()));
        assert(msgs(errors@) =~= start + runtime_msgs(func@, id, *ty, *rf, args@));
    }
}

/// Integer or floating-point arithmetic, for the wording of messages.
#[derive(Debug, Clone, Copy, PartialEq, Eq, Structural)]
pub enum ArithClass {
    Integer,
    Real,
}

impl ArithClass {
    /// Is `ty` an operand type of this arithmetic?
    pub open spec fn takes(self, ty: IrType) -> bool {
        match self {
            ArithClass::Integer => ty is Int,
            ArithClass::Real => ty is Float,
        }
    }

    fn accepts(self, ty: &IrType) -> (r: bool)
        ensures
            r == self.takes(*ty),
    {
        match self {
            ArithClass::Integer => ty.is_int(),
            ArithClass::Real => ty.is_float(),
        }
    }

    /// How messages about an operation open.
    pub open spec fn opening(self) -> Seq<char> {
        match self {
            ArithClass::Integer => "integer op %"@,
            ArithClass::Real => "float op %"@,
        }
    }

    /// How messages name an operand of another class.
    pub open spec fn misfit(self) -> Seq<char> {
        match self {
            ArithClass::Integer => " has non-integer operand %"@,
            ArithClass::Real => " has non-float operand %"@,
        }
    }

    fn opening_text(self) -> (r: &'static str)
        ensures
            r@ == self.opening(),
    {
        match self {
            ArithClass::Integer => "integer op %",
            ArithClass::Real => "float op %",
        }
    }

    fn misfit_text(self) -> (r: &'static str)
        ensures
            r@ == self.misfit(),
    {
        match self {
            ArithClass::Integer => " has non-integer operand %",
            ArithClass::Real => " has non-float operand %",
        }
    }
}

/// The message about an operand of another class.
pub open spec fn misfit_msg(class: ArithClass, id: ValueId, v: ValueId, ty: IrType) -> Seq<char> {
    class.opening() + dec(id.0 as nat) + class.misfit() + dec(v.0 as nat) + " : "@ + type_text(ty)
}

fn misfit_note(class: ArithClass, id: ValueId, v: ValueId, ty: &IrType) -> (r: String)
    ensures
        r@ == misfit_msg(class, id, v, *ty),
{
    let mut s = text(class.opening_text());
    push_num(&mut s, id.0);
    s.append(class.misfit_text());
    push_num(&mut s, v.0);
    s.append(" : ");
    s.append(ty.display().as_str());
    s
}

/// What is wrong with arithmetic on operands of types `x` and `y`.
pub open spec fn arith_msgs(
    class: ArithClass,
    id: ValueId,
    ty: IrType,
    a: ValueId,
    x: IrType,
    b: ValueId,
    y: IrType,
) -> Seq<Seq<char>> {
    only_if(!class.takes(x), misfit_msg(class, id, a, x)) + only_if(
        !class.takes(y),
        misfit_msg(class, id, b, y),
    ) + only_if(
        class.takes(x) && class.takes(y) && x != y,
        class.opening() + dec(id.0 as nat) + ": operand width mismatch %"@ + dec(a.0 as nat)
            + " : "@ + type_text(x) + " vs %"@ + dec(b.0 as nat) + " : "@ + type_text(y),
    ) + only_if(
        class.takes(x) && x == y && x != ty,
        class.opening() + dec(id.0 as nat) + " result type "@ + type_text(ty)
            + " does not match operand type "@ + type_text(x),
    )
}

fn check_arith(
    class: ArithClass,
    id: ValueId,
    ty: &IrType,
    a: ValueId,
    x: &IrType,
    b: ValueId,
    y: &IrType,
    errors: &mut Vec<VerifyError>,
)
    ensures
        msgs(final(errors)@) == msgs(old(errors)@) + arith_msgs(class, id, *ty, a, *x, b, *y),
{
    let x_fits: bool = class.accepts(x);
    let y_fits: bool = class.accepts(y);
    let same: bool = x.same(y);
    if !x_fits {
        report(errors, misfit_note(class, id, a, x));
    }
    let ghost m1 = only_if(!class.takes(*x), misfit_msg(class, id, a, *x));
    assert(msgs(errors@) =~= msgs(old(errors)@) + m1);
    if !y_fits {
        report(errors, misfit_note(class, id, b, y));
    }
    let ghost m2 = m1 + only_if(!class.takes(*y), misfit_msg(class, id, b, *y));
    assert(msgs(errors@) =~= msgs(old(errors)@) + m2);
    if x_fits && y_fits && !same {
        let mut s = text(class.opening_text());
        push_num(&mut s, id.0);
        s.append(": operand width mismatch %");
        push_num(&mut s, a.0);
        s.append(" : ");
        s.append(x.display().as_str());
        s.append(" vs %");
        push_num(&mut s, b.0);
        s.append(" : ");
        s.append(y.display().as_str());
        report(errors, s);
    }
    let ghost m3 = m2 + only_if(
        class.takes(*x) && class.takes(*y) && *x != *y,
        class.opening() + dec(id.0 as nat) + ": operand width mismatch %"@ + dec(a.0 as nat)
            + " : "@ + type_text(*x) + " vs %"@ + dec(b.0 as nat) + " : "@ + type_text(*y),
    );
    assert(msgs(errors@) =~= msgs(old(errors)@) + m3);
    if x_fits && same && !x.same(ty) {
        let mut s = text(class.opening_text());
        push_num(&mut s, id.0);
        s.append(" result type ");
        s.append(ty.display().as_str());
        s.append(" does not match operand type ");
        s.append(x.display().as_str());
        report(errors, s);
    }
    assert(msgs(errors@) =~= msgs(old(errors)@) + arith_msgs(class, id, *ty, a, *x, b, *y));
}

/// The message about an operand of unknown type.
pub open spec fn untyped_msg(id: ValueId, v: ValueId) -> Seq<char> {
    "integer op %"@ + dec(id.0 as nat) + ": operand %"@ + dec(v.0 as nat) + " has no type"@
}

fn untyped_note(id: ValueId, v: ValueId) -> (r: String)
    ensures
        r@ == untyped_msg(id, v),
{
    let mut s = text("integer op %");
    push_num(&mut s, id.0);
    s.append(": operand %");
    push_num(&mut s, v.0);
    s.append(" has no type");
    s
}

/// What is wrong with an integer operation.
#[verifier::opaque]
pub open spec fn int_op_msgs(f: FuncView, id: ValueId, ty: IrType, a: ValueId, b: ValueId) -> Seq<
    Seq<char>,
> {
    only_if(type_of(f, a) is None, untyped_msg(id, a)) + only_if(
        type_of(f, b) is None,
        untyped_msg(id, b),
    ) + match (type_of(f, a), type_of(f, b)) {
        (Some(x), Some(y)) => arith_msgs(ArithClass::Integer, id, ty, a, x, b, y),
        _ => Seq::empty(),
    }
}

fn check_int_op(
    func: &Function,
    id: ValueId,
    ty: &IrType,
    a: ValueId,
    b: ValueId,
    errors: &mut Vec<VerifyError>,
)
    ensures
        msgs(final(errors)@) == msgs(old(errors)@) + int_op_msgs(func@, id, *ty, a, b),
{
    proof {
        reveal(int_op_msgs);
    }
    let ta = func.value_type(a);
    let tb = func.value_type(b);
    if ta.is_none() {
        report(errors, untyped_note(id, a));
    }
    let ghost m1 = only_if(type_of(func@, a) is None, untyped_msg(id, a));
    assert(msgs(errors@) =~= msgs(old(errors)@) + m1);
    if tb.is_none() {
        report(errors, untyped_note(id, b));
    }
    let ghost m2 = m1 + only_if(type_of(func@, b) is None, untyped_msg(id, b));
    assert(msgs(errors@) =~= msgs(old(errors)@) + m2);
    match (&ta, &tb) {
        (Some(x), Some(y)) => {
            check_arith(ArithClass::Integer, id, ty, a, x, b, y, errors);
        },
        _ => {},
    }
    assert(msgs(errors@) =~= msgs(old(errors)@) + int_op_msgs(func@, id, *ty, a, b));
}

/// What is wrong with a floating-point operation.
#[verifier::opaque]
pub open spec fn float_op_msgs(f: FuncView, id: ValueId, ty: IrType, a: ValueId, b: ValueId) -> Seq<
    Seq<char>,
> {
    match (type_of(f, a), type_of(f, b)) {
        (Some(x), Some(y)) => arith_msgs(ArithClass::Real, id, ty, a, x, b, y),
        _ => Seq::empty(),
    }
}

fn check_float_op(
    func: &Function,
    id: ValueId,
    ty: &IrType,
    a: ValueId,
    b: ValueId,
    errors: &mut Vec<VerifyError>,
)
    ensures
        msgs(final(errors)@) == msgs(old(errors)@) + float_op_msgs(func@, id, *ty, a, b),
{
    proof {
        reveal(float_op_msgs);
    }
    proof {
        lemma_nothing(msgs(errors@));
    }
    match (func.value_type(a), func.value_type(b)) {
        (Some(x), Some(y)) => {
            check_arith(ArithClass::Real, id, ty, a, &x, b, &y, errors);
        },
        _ => {},
    }
}

/// May a value of type `v` be stored where `pointee` is expected?
///
/// Byte pointers are markers for untyped storage, and one pointer type may
/// stand for another.
pub open spec fn storable(pointee: IrType, v: IrType) -> bool {
    pointee == IrType::Int(IntWidth::I8) || (pointee is Ptr && v is Ptr) || v == pointee
}

/// What is wrong with a store.
#[verifier::opaque]
pub open spec fn store_msgs(f: FuncView, id: ValueId, val: ValueId, addr: ValueId) -> Seq<
    Seq<char>,
> {
    (match type_of(f, addr) {
        Some(ty) => only_if(
            ty !is Ptr,
            "store %"@ + dec(id.0 as nat) + " to non-pointer %"@ + dec(addr.0 as nat) + " : "@
                + type_text(ty),
        ),
        None => Seq::empty(),
    }) + match (type_of(f, addr), type_of(f, val)) {
        (Some(IrType::Ptr(inner)), Some(v)) => only_if(
            !storable(*inner, v),
            "store %"@ + dec(id.0 as nat) + ": value type "@ + type_text(v)
                + " doesn't match pointee type "@ + type_text(*inner),
        ),
        _ => Seq::empty(),
    }
}

fn check_store(
    func: &Function,
    id: ValueId,
    val: ValueId,
    addr: ValueId,
    errors: &mut Vec<VerifyError>,
)
    ensures
        msgs(final(errors)@) == msgs(old(errors)@) + store_msgs(func@, id, val, addr),
{
    proof {
        reveal(store_msgs);
    }
    let addr_ty = func.value_type(addr);
    match &addr_ty {
        Some(ty) => {
            if !ty.is_ptr() {
                let mut s = text("store %");
                push_num(&mut s, id.0);
                s.append(" to non-pointer %");
                push_num(&mut s, addr.0);
                s.append(" : ");
                s.append(ty.display().as_str());
                report(errors, s);
            }
        },
        None => {},
    }
    let ghost m1 = match type_of(func@, addr) {
        Some(ty) => only_if(
            ty !is Ptr,
            "store %"@ + dec(id.0 as nat) + " to non-pointer %"@ + dec(addr.0 as nat) + " : "@
                + type_text(ty),
        ),
        None => Seq::empty(),
    };
    assert(msgs(errors@) =~= msgs(old(errors)@) + m1);
    match (&addr_ty, func.value_type(val)) {
        (Some(IrType::Ptr(inner)), Some(v)) => {
            let byte: bool = matches!(**inner, IrType::Int(IntWidth::I8));
            let both: bool = inner.is_ptr() && v.is_ptr();
            if !byte && !both && !v.same(inner) {
                let mut s = text("store %");
                push_num(&mut s, id.0);
                s.append(": value type ");
                s.append(v.display().as_str());
                s.append(" doesn't match pointee type ");
                s.append(inner.display().as_str());
                report(errors, s);
            }
        },
        _ => {},
    }
    assert(msgs(errors@) =~= msgs(old(errors)@) + store_msgs(func@, id, val, addr));
}

/// What is wrong with a load.
#[verifier::opaque]
pub open spec fn load_msgs(f: FuncView, id: ValueId, addr: ValueId) -> Seq<Seq<char>> {
    match type_of(f, addr) {
        Some(ty) => only_if(
            ty !is Ptr,
            "load %"@ + dec(id.0 as nat) + " from non-pointer %"@ + dec(addr.0 as nat) + " : "@
                + type_text(ty),
        ),
        None => Seq::empty(),
    }
}

fn check_load(func: &Function, id: ValueId, addr: ValueId, errors: &mut Vec<VerifyError>)
    ensures
        msgs(final(errors)@) == msgs(old(errors)@) + load_msgs(func@, id, addr),
{
    proof {
        reveal(load_msgs);
    }
    proof {
        lemma_nothing(msgs(errors@));
    }
    match func.value_type(addr) {
        Some(ty) => {
            if !ty.is_ptr() {
                let mut s = text("load %");
                push_num(&mut s, id.0);
                s.append(" from non-pointer %");
                push_num(&mut s, addr.0);
                s.append(" : ");
                s.append(ty.display().as_str());
                report(errors, s);
            }
        },
        None => {},
    }
}

/// What is wrong with a bit operation.
#[verifier::opaque]
pub open spec fn bitwise_msgs(f: FuncView, id: ValueId, a: ValueId, b: ValueId) -> Seq<Seq<char>> {
    match (type_of(f, a), type_of(f, b)) {
        (Some(x), Some(y)) => only_if(
            x !is Int || y !is Int,
            "bitwise op %"@ + dec(id.0 as nat) + ": operand must be integer ("@ + type_text(x)
                + " / "@ + type_text(y) + ")"@,
        ) + only_if(
            x is Int && y is Int && x != y,
            "bitwise op %"@ + dec(id.0 as nat) + ": operand width mismatch "@ + type_text(x)
                + " vs "@ + type_text(y),
        ),
        _ => Seq::empty(),
    }
}

fn check_bitwise(
    func: &Function,
    id: ValueId,
    a: ValueId,
    b: ValueId,
    errors: &mut Vec<VerifyError>,
)
    ensures
        msgs(final(errors)@) == msgs(old(errors)@) + bitwise_msgs(func@, id, a, b),
{
    proof {
        reveal(bitwise_msgs);
    }
    match (func.value_type(a), func.value_type(b)) {
        (Some(x), Some(y)) => {
            let both: bool = x.is_int() && y.is_int();
            if !both {
                let mut s = text("bitwise op %");
                push_num(&mut s, id.0);
                s.append(": operand must be integer (");
                s.append(x.display().as_str());
                s.append(" / ");
                s.append(y.display().as_str());
                s.append(")");
                report(errors, s);
            }
            if both && !x.same(&y) {
                let mut s = text("bitwise op %");
                push_num(&mut s, id.0);
                s.append(": operand width mismatch ");
                s.append(x.display().as_str());
                s.append(" vs ");
                s.append(y.display().as_str());
                report(errors, s);
            }
        },
        _ => {},
    }
    assert(msgs(errors@) =~= msgs(old(errors)@) + bitwise_msgs(func@, id, a, b));
}

/// What is wrong with a logical operation.
#[verifier::opaque]
pub open spec fn logical_msgs(f: FuncView, id: ValueId, a: ValueId, b: ValueId) -> Seq<Seq<char>> {
    match (type_of(f, a), type_of(f, b)) {
        (Some(x), Some(y)) => only_if(
            x != IrType::Bool || y != IrType::Bool,
            "logical op %"@ + dec(id.0 as nat) + ": operands must be Bool ("@ + type_text(x)
                + " / "@ + type_text(y) + ")"@,
        ),
        _ => Seq::empty(),
    }
}

fn check_logical(
    func: &Function,
    id: ValueId,
    a: ValueId,
    b: ValueId,
    errors: &mut Vec<VerifyError>,
)
    ensures
        msgs(final(errors)@) == msgs(old(errors)@) + logical_msgs(func@, id, a, b),
{
    proof {
        reveal(logical_msgs);
    }
    proof {
        lemma_nothing(msgs(errors@));
    }
    match (func.value_type(a), func.value_type(b)) {
        (Some(x), Some(y)) => {
            if !x.same(&IrType::Bool) || !y.same(&IrType::Bool) {
                let mut s = text("logical op %");
                push_num(&mut s, id.0);
                s.append(": operands must be Bool (");
                s.append(x.display().as_str());
                s.append(" / ");
                s.append(y.display().as_str());
                s.append(")");
                report(errors, s);
            }
        },
        _ => {},
    }
}

/// What is wrong with an integer comparison.
#[verifier::opaque]
pub open spec fn compare_msgs(f: FuncView, id: ValueId, a: ValueId, b: ValueId) -> Seq<Seq<char>> {
    match (type_of(f, a), type_of(f, b)) {
        (Some(x), Some(y)) => if x !is Int || y !is Int {
            seq![
                "integer compare %"@ + dec(id.0 as nat) + ": operands must be integers ("@
                    + type_text(x) + " / "@ + type_text(y) + ")"@,
            ]
        } else {
            only_if(
                x != y,
                "integer compare operand type mismatch: %"@ + dec(a.0 as nat) + " : "@ + type_text(
                    x,
                ) + " vs %"@ + dec(b.0 as nat) + " : "@ + type_text(y),
            )
        },
        _ => Seq::empty(),
    }
}

fn check_compare(
    func: &Function,
    id: ValueId,
    a: ValueId,
    b: ValueId,
    errors: &mut Vec<VerifyError>,
)
    ensures
        msgs(final(errors)@) == msgs(old(errors)@) + compare_msgs(func@, id, a, b),
{
    proof {
        reveal(compare_msgs);
    }
    proof {
        lemma_nothing(msgs(errors@));
    }
    match (func.value_type(a), func.value_type(b)) {
        (Some(x), Some(y)) => {
            if !x.is_int() || !y.is_int() {
                let mut s = text("integer compare %");
                push_num(&mut s, id.0);
                s.append(": operands must be integers (");
                s.append(x.display().as_str());
                s.append(" / ");
                s.append(y.display().as_str());
                s.append(")");
                report(errors, s);
            } else if !x.same(&y) {
                let mut s = text("integer compare operand type mismatch: %");
                push_num(&mut s, a.0);
                s.append(" : ");
                s.append(x.display().as_str());
                s.append(" vs %");
                push_num(&mut s, b.0);
                s.append(" : ");
                s.append(y.display().as_str());
                report(errors, s);
            }
        },
        _ => {},
    }
}

/// What is wrong with a selection.
#[verifier::opaque]
pub open spec fn select_msgs(
    f: FuncView,
    id: ValueId,
    ty: IrType,
    c: ValueId,
    t: ValueId,
    e: ValueId,
) -> Seq<Seq<char>> {
    (match type_of(f, c) {
        Some(x) => only_if(
            x != IrType::Bool,
            "select condition must be Bool: %"@ + dec(c.0 as nat) + " got "@ + type_text(x),
        ),
        None => Seq::empty(),
    }) + match (type_of(f, t), type_of(f, e)) {
        (Some(x), Some(y)) => only_if(
            x != y || x != ty,
            "select %"@ + dec(id.0 as nat) + ": arms and result must share type ("@ + type_text(x)
                + " / "@ + type_text(y) + " / "@ + type_text(ty) + ")"@,
        ),
        _ => Seq::empty(),
    }
}

fn check_select(
    func: &Function,
    id: ValueId,
    ty: &IrType,
    c: ValueId,
    t: ValueId,
    e: ValueId,
    errors: &mut Vec<VerifyError>,
)
    ensures
        msgs(final(errors)@) == msgs(old(errors)@) + select_msgs(func@, id, *ty, c, t, e),
{
    proof {
        reveal(select_msgs);
    }
    match func.value_type(c) {
        Some(x) => {
            if !x.same(&IrType::Bool) {
                let mut s = text("select condition must be Bool: %");
                push_num(&mut s, c.0);
                s.append(" got ");
                s.append(x.display().as_str());
                report(errors, s);
            }
        },
        None => {},
    }
    let ghost m1 = match type_of(func@, c) {
        Some(x) => only_if(
            x != IrType::Bool,
            "select condition must be Bool: %"@ + dec(c.0 as nat) + " got "@ + type_text(x),
        ),
        None => Seq::empty(),
    };
    assert(msgs(errors@) =~= msgs(old(errors)@) + m1);
    match (func.value_type(t), func.value_type(e)) {
        (Some(x), Some(y)) => {
            if !x.same(&y) || !x.same(ty) {
                let mut s = text("select %");
                push_num(&mut s, id.0);
                s.append(": arms and result must share type (");
                s.append(x.display().as_str());
                s.append(" / ");
                s.append(y.display().as_str());
                s.append(" / ");
                s.append(ty.display().as_str());
                s.append(")");
                report(errors, s);
            }
        },
        _ => {},
    }
    assert(msgs(errors@) =~= msgs(old(errors)@) + select_msgs(func@, id, *ty, c, t, e));
}

/// What is wrong with a vector operation on two operands.
#[verifier::opaque]
pub open spec fn vector_pair_msgs(f: FuncView, ty: IrType, a: ValueId, b: ValueId) -> Seq<
    Seq<char>,
> {
    match (type_of(f, a), type_of(f, b)) {
        (Some(x), Some(y)) => only_if(
            x != y || x != ty,
            "vector binop operands and result must share type: lhs "@ + type_text(x) + ", rhs "@
                + type_text(y) + ", result "@ + type_text(ty),
        ),
        _ => Seq::empty(),
    }
}

fn check_vector_pair(
    func: &Function,
    ty: &IrType,
    a: ValueId,
    b: ValueId,
    errors: &mut Vec<VerifyError>,
)
    ensures
        msgs(final(errors)@) == msgs(old(errors)@) + vector_pair_msgs(func@, *ty, a, b),
{
    proof {
        reveal(vector_pair_msgs);
    }
    proof {
        lemma_nothing(msgs(errors@));
    }
    match (func.value_type(a), func.value_type(b)) {
        (Some(x), Some(y)) => {
            if !x.same(&y) || !x.same(ty) {
                let mut s = text("vector binop operands and result must share type: lhs ");
                s.append(x.display().as_str());
                s.append(", rhs ");
                s.append(y.display().as_str());
                s.append(", result ");
                s.append(ty.display().as_str());
                report(errors, s);
            }
        },
        _ => {},
    }
}

/// What is wrong with a fused multiply-add of vectors.
#[verifier::opaque]
pub open spec fn vector_fma_msgs(f: FuncView, ty: IrType, a: ValueId, b: ValueId, c: ValueId) -> Seq<
    Seq<char>,
> {
    match (type_of(f, a), type_of(f, b), type_of(f, c)) {
        (Some(x), Some(y), Some(z)) => only_if(
            x != y || y != z || x != ty,
            "vfma operands and result must share type: a "@ + type_text(x) + ", b "@ + type_text(y)
                + ", c "@ + type_text(z) + ", result "@ + type_text(ty),
        ),
        _ => Seq::empty(),
    }
}

fn check_vector_fma(
    func: &Function,
    ty: &IrType,
    a: ValueId,
    b: ValueId,
    c: ValueId,
    errors: &mut Vec<VerifyError>,
)
    ensures
        msgs(final(errors)@) == msgs(old(errors)@) + vector_fma_msgs(func@, *ty, a, b, c),
{
    proof {
        reveal(vector_fma_msgs);
    }
    proof {
        lemma_nothing(msgs(errors@));
    }
    match (func.value_type(a), func.value_type(b), func.value_type(c)) {
        (Some(x), Some(y), Some(z)) => {
            if !x.same(&y) || !y.same(&z) || !x.same(ty) {
                let mut s = text("vfma operands and result must share type: a ");
                s.append(x.display().as_str());
                s.append(", b ");
                s.append(y.display().as_str());
                s.append(", c ");
                s.append(z.display().as_str());
                s.append(", result ");
                s.append(ty.display().as_str());
                report(errors, s);
            }
        },
        _ => {},
    }
}

/// What is wrong with a selection between vectors.
#[verifier::opaque]
pub open spec fn vector_select_msgs(f: FuncView, ty: IrType, t: ValueId, e: ValueId) -> Seq<
    Seq<char>,
> {
    match (type_of(f, t), type_of(f, e)) {
        (Some(x), Some(y)) => only_if(
            x != y || x != ty,
            "vselect t/f and result must share type: t "@ + type_text(x) + ", f "@ + type_text(y)
                + ", result "@ + type_text(ty),
        ),
        _ => Seq::empty(),
    }
}

fn check_vector_select(
    func: &Function,
    ty: &IrType,
    t: ValueId,
    e: ValueId,
    errors: &mut Vec<VerifyError>,
)
    ensures
        msgs(final(errors)@) == msgs(old(errors)@) + vector_select_msgs(func@, *ty, t, e),
{
    proof {
        reveal(vector_select_msgs);
    }
    proof {
        lemma_nothing(msgs(errors@));
    }
    match (func.value_type(t), func.value_type(e)) {
        (Some(x), Some(y)) => {
            if !x.same(&y) || !x.same(ty) {
                let mut s = text("vselect t/f and result must share type: t ");
                s.append(x.display().as_str());
                s.append(", f ");
                s.append(y.display().as_str());
                s.append(", result ");
                s.append(ty.display().as_str());
                report(errors, s);
            }
        },
        _ => {},
    }
}

/// What is wrong with a vector operation on one operand.
#[verifier::opaque]
pub open spec fn vector_unary_msgs(f: FuncView, ty: IrType, a: ValueId) -> Seq<Seq<char>> {
    match type_of(f, a) {
        Some(x) => only_if(
            x != ty,
            "vector unop operand and result must share type: "@ + type_text(x) + " vs "@
                + type_text(ty),
        ),
        None => Seq::empty(),
    }
}

fn check_vector_unary(func: &Function, ty: &IrType, a: ValueId, errors: &mut Vec<VerifyError>)
    ensures
        msgs(final(errors)@) == msgs(old(errors)@) + vector_unary_msgs(func@, *ty, a),
{
    proof {
        reveal(vector_unary_msgs);
    }
    proof {
        lemma_nothing(msgs(errors@));
    }
    match func.value_type(a) {
        Some(x) => {
            if !x.same(ty) {
                let mut s = text("vector unop operand and result must share type: ");
                s.append(x.display().as_str());
                s.append(" vs ");
                s.append(ty.display().as_str());
                report(errors, s);
            }
        },
        None => {},
    }
}

/// What is wrong with the number of a vector lane.
#[verifier::opaque]
pub open spec fn lane_msgs(f: FuncView, what: Seq<char>, v: ValueId, lane: u8) -> Seq<Seq<char>> {
    match type_of(f, v) {
        Some(IrType::Vector { lanes, .. }) => only_if(
            lane >= lanes,
            what + " lane "@ + dec(lane as nat) + " out of range (vector has "@ + dec(lanes as nat)
                + " lanes)"@,
        ),
        _ => Seq::empty(),
    }
}

fn check_lane(func: &Function, what: &str, v: ValueId, lane: u8, errors: &mut Vec<VerifyError>)
    ensures
        msgs(final(errors)@) == msgs(old(errors)@) + lane_msgs(func@, what@, v, lane),
{
    proof {
        reveal(lane_msgs);
    }
    proof {
        lemma_nothing(msgs(errors@));
    }
    match func.value_type(v) {
        Some(IrType::Vector { lanes, .. }) => {
            if lane >= lanes {
                let mut s = text(what);
                s.append(" lane ");
                push_num(&mut s, lane as u32);
                s.append(" out of range (vector has ");
                push_num(&mut s, lanes as u32);
                s.append(" lanes)");
                report(errors, s);
            }
        },
        _ => {},
    }
}

/// Is this element-wise vector arithmetic?
pub open spec fn is_vector_arith(op: Op) -> bool {
    op is VAdd || op is VSub || op is VMul || op is VDiv || op is VMin || op is VMax || op is VFma
        || op is VNeg || op is VAbs || op is VSqrt
}

/// What is wrong with the shape of an instruction's result.
pub open spec fn shape_msgs(inst: InstView) -> Seq<Seq<char>> {
    (match shape_error(inst.ty) {
        Some(m) => seq![m],
        None => Seq::empty(),
    }) + (if is_vector_arith(inst.kind.op) {
        match arithmetic_shape_error(inst.ty) {
            Some(m) => seq!["vector arithmetic %"@ + dec(inst.id.0 as nat) + ": "@ + m],
            None => Seq::empty(),
        }
    } else {
        Seq::empty()
    })
}

/// What is wrong with the types of an instruction's operands and result.
pub open spec fn operand_msgs(f: FuncView, inst: InstView) -> Seq<Seq<char>> {
    let id = inst.id;
    let ty = inst.ty;
    let args = inst.kind.args;
    match inst.kind.op {
        Op::IAdd | Op::ISub | Op::IMul | Op::IDiv | Op::IMod => int_op_msgs(
            f,
            id,
            ty,
            args[0],
            args[1],
        ),
        Op::FAdd | Op::FSub | Op::FMul | Op::FDiv | Op::FPow => float_op_msgs(
            f,
            id,
            ty,
            args[0],
            args[1],
        ),
        Op::Store => store_msgs(f, id, args[0], args[1]),
        Op::Load => load_msgs(f, id, args[0]),
        Op::BitAnd | Op::BitOr | Op::BitXor | Op::Shl | Op::LShr | Op::AShr => bitwise_msgs(
            f,
            id,
            args[0],
            args[1],
        ),
        Op::And | Op::Or => logical_msgs(f, id, args[0], args[1]),
        Op::ICmp(_) => compare_msgs(f, id, args[0], args[1]),
        Op::Select => select_msgs(f, id, ty, args[0], args[1], args[2]),
        Op::RuntimeCall(rf) => runtime_msgs(f, id, ty, rf, args),
        Op::VAdd | Op::VSub | Op::VMul | Op::VDiv | Op::VMin | Op::VMax => vector_pair_msgs(
            f,
            ty,
            args[0],
            args[1],
        ),
        Op::VFma => vector_fma_msgs(f, ty, args[0], args[1], args[2]),
        Op::VSelect => vector_select_msgs(f, ty, args[1], args[2]),
        Op::VNeg | Op::VAbs | Op::VSqrt => vector_unary_msgs(f, ty, args[0]),
        Op::VExtract(lane) => lane_msgs(f, "vextract"@, args[0], lane),
        Op::VInsert(lane) => lane_msgs(f, "vinsert"@, args[0], lane),
        _ => Seq::empty(),
    }
}

/// What is wrong with the types of an instruction.
pub open spec fn consistency_msgs(f: FuncView, inst: InstView) -> Seq<Seq<char>> {
    shape_msgs(inst) + operand_msgs(f, inst)
}

fn check_shape(inst: &Inst, errors: &mut Vec<VerifyError>)
    ensures
        msgs(final(errors)@) == msgs(old(errors)@) + shape_msgs(inst@),
{
    if let Some(m) = vector_shape_error(&inst.ty) {
        report(errors, m);
    }
    let ghost first = match shape_error(inst.ty) {
        Some(m) => seq![m],
        None => Seq::empty(),
    };
    assert(msgs(errors@) =~= msgs(old(errors)@) + first);
    let arith: bool = match &inst.kind {
        InstKind::VAdd(_, _)
        | InstKind::VSub(_, _)
        | InstKind::VMul(_, _)
        | InstKind::VDiv(_, _)
        | InstKind::VMin(_, _)
        | InstKind::VMax(_, _)
        | InstKind::VFma(_, _, _)
        | InstKind::VNeg(_)
        | InstKind::VAbs(_)
        | InstKind::VSqrt(_) => true,
        _ => false,
    };
    assert(arith == is_vector_arith(inst@.kind.op));
    if arith {
        if let Some(m) = vector_arithmetic_shape_error(&inst.ty) {
            let mut s = text("vector arithmetic %");
            push_num(&mut s, inst.id.0);
            s.append(": ");
            s.append(m.as_str());
            report(errors, s);
        }
    }
    assert(msgs(errors@) =~= msgs(old(errors)@) + shape_msgs(inst@));
}

#[verifier::rlimit(40)]
fn check_operands(func: &Function, inst: &Inst, errors: &mut Vec<VerifyError>)
    ensures
        msgs(final(errors)@) == msgs(old(errors)@) + operand_msgs(func@, inst@),
{
    proof {
        lemma_nothing(msgs(errors@));
    }
    let id = inst.id;
    match &inst.kind {
        InstKind::IAdd(a, b)
        | InstKind::ISub(a, b)
        | InstKind::IMul(a, b)
        | InstKind::IDiv(a, b)
        | InstKind::IMod(a, b) => {
            check_int_op(func, id, &inst.ty, *a, *b, errors);
        },
        InstKind::FAdd(a, b)
        | InstKind::FSub(a, b)
        | InstKind::FMul(a, b)
        | InstKind::FDiv(a, b)
        | InstKind::FPow(a, b) => {
            check_float_op(func, id, &inst.ty, *a, *b, errors);
        },
        InstKind::Store(val, addr) => {
            check_store(func, id, *val, *addr, errors);
        },
        InstKind::Load(addr) => {
            check_load(func, id, *addr, errors);
        },
        InstKind::BitAnd(a, b)
        | InstKind::BitOr(a, b)
        | InstKind::BitXor(a, b)
        | InstKind::Shl(a, b)
        | InstKind::LShr(a, b)
        | InstKind::AShr(a, b) => {
            check_bitwise(func, id, *a, *b, errors);
        },
        InstKind::And(a, b) | InstKind::Or(a, b) => {
            check_logical(func, id, *a, *b, errors);
        },
        InstKind::ICmp(_, a, b) => {
            check_compare(func, id, *a, *b, errors);
        },
        InstKind::Select(c, t, e) => {
            check_select(func, id, &inst.ty, *c, *t, *e, errors);
        },
        InstKind::RuntimeCall(rf, args) => {
            check_runtime_call_signature(func, id, &inst.ty, rf, args, errors);
        },
        InstKind::VAdd(a, b)
        | InstKind::VSub(a, b)
        | InstKind::VMul(a, b)
        | InstKind::VDiv(a, b)
        | InstKind::VMin(a, b)
        | InstKind::VMax(a, b) => {
            check_vector_pair(func, &inst.ty, *a, *b, errors);
        },
        InstKind::VFma(a, b, c) => {
            check_vector_fma(func, &inst.ty, *a, *b, *c, errors);
        },
        InstKind::VSelect(_, t, e) => {
            check_vector_select(func, &inst.ty, *t, *e, errors);
        },
        InstKind::VNeg(a) | InstKind::VAbs(a) | InstKind::VSqrt(a) => {
            check_vector_unary(func, &inst.ty, *a, errors);
        },
        InstKind::VExtract(v, lane) => {
            check_lane(func, "vextract", *v, *lane, errors);
        },
        InstKind::VInsert(v, lane, _) => {
            check_lane(func, "vinsert", *v, *lane, errors);
        },
        _ => {},
    }
}

/// Reports what is wrong with the types of an instruction.
pub fn check_type_consistency(func: &Function, inst: &Inst, errors: &mut Vec<VerifyError>)
    ensures
        msgs(final(errors)@) == msgs(old(errors)@) + consistency_msgs(func@, inst@),
{
    check_shape(inst, errors);
    check_operands(func, inst, errors);
    assert(msgs(errors@) =~= msgs(old(errors)@) + consistency_msgs(func@, inst@));
}

/// What is wrong with the value that a return hands back.
pub open spec fn return_msgs(f: FuncView, t: TermView, name: Seq<char>) -> Seq<Seq<char>> {
    match t {
        TermView::Return(value) => match (f.return_type, value) {
            (IrType::Void, None) => Seq::empty(),
            (IrType::Void, Some(v)) => seq![
                "return from block '"@ + name
                    + "': void function must not return a value (got %"@ + dec(v.0 as nat) + ")"@,
            ],
            (expected, None) => seq![
                "return from block '"@ + name
                    + "': non-void function must return a value of type "@ + type_text(expected),
            ],
            (expected, Some(v)) => match type_of(f, v) {
                Some(actual) => only_if(
                    actual != expected,
                    "return type mismatch in block '"@ + name + "': expected "@ + type_text(
                        expected,
                    ) + ", got "@ + type_text(actual) + " from %"@ + dec(v.0 as nat),
                ),
                None => seq![
                    "return from block '"@ + name + "': value %"@ + dec(v.0 as nat)
                        + " has no type; expected "@ + type_text(expected),
                ],
            },
        },
        _ => Seq::empty(),
    }
}

fn check_return_type(
    func: &Function,
    term: &Terminator,
    name: &str,
    errors: &mut Vec<VerifyError>,
)
    ensures
        msgs(final(errors)@) == msgs(old(errors)@) + return_msgs(func@, term@, name@),
{
    proof {
        lemma_nothing(msgs(errors@));
    }
    match term {
        Terminator::Return(value) => match (&func.return_type, value) {
            (IrType::Void, None) => {},
            (IrType::Void, Some(v)) => {
                let mut s = text("return from block '");
                s.append(name);
                s.append("': void function must not return a value (got %");
                push_num(&mut s, v.0);
                s.append(")");
                report(errors, s);
            },
            (expected, None) => {
                let mut s = text("return from block '");
                s.append(name);
                s.append("': non-void function must return a value of type ");
                s.append(expected.display().as_str());
                report(errors, s);
            },
            (expected, Some(v)) => match func.value_type(*v) {
                Some(actual) => {
                    if !actual.same(expected) {
                        let mut s = text("return type mismatch in block '");
                        s.append(name);
                        s.append("': expected ");
                        s.append(expected.display().as_str());
                        s.append(", got ");
                        s.append(actual.display().as_str());
                        s.append(" from %");
                        push_num(&mut s, v.0);
                        report(errors, s);
                    }
                },
                None => {
                    let mut s = text("return from block '");
                    s.append(name);
                    s.append("': value %");
                    push_num(&mut s, v.0);
                    s.append(" has no type; expected ");
                    s.append(expected.display().as_str());
                    report(errors, s);
                },
            },
        },
        _ => {},
    }
}

/// What is wrong with the condition of a branch.
pub open spec fn condition_msgs(f: FuncView, cond: ValueId, name: Seq<char>) -> Seq<Seq<char>> {
    match type_of(f, cond) {
        Some(ty) => only_if(
            ty != IrType::Bool,
            "conditional branch from '"@ + name + "': condition must be Bool, got "@ + type_text(
                ty,
            ),
        ),
        None => seq![
            "conditional branch from '"@ + name + "': condition %"@ + dec(cond.0 as nat)
                + " has no type; expected Bool"@,
        ],
    }
}

fn check_condition(func: &Function, cond: ValueId, name: &str, errors: &mut Vec<VerifyError>)
    ensures
        msgs(final(errors)@) == msgs(old(errors)@) + condition_msgs(func@, cond, name@),
{
    proof {
        lemma_nothing(msgs(errors@));
    }
    match func.value_type(cond) {
        Some(ty) => {
            if !ty.same(&IrType::Bool) {
                let mut s = text("conditional branch from '");
                s.append(name);
                s.append("': condition must be Bool, got ");
                s.append(ty.display().as_str());
                report(errors, s);
            }
        },
        None => {
            let mut s = text("conditional branch from '");
            s.append(name);
            s.append("': condition %");
            push_num(&mut s, cond.0);
            s.append(" has no type; expected Bool");
            report(errors, s);
        },
    }
}

/// What is wrong with one argument of a branch.
pub open spec fn branch_arg_msgs(
    f: FuncView,
    name: Seq<char>,
    target: BlockView,
    args: Seq<ValueId>,
) -> spec_fn(int) -> Seq<Seq<char>> {
    |i: int|
        match type_of(f, args[i]) {
            Some(ty) => only_if(
                ty != target.params[i].ty,
                "branch from '"@ + name + "' to '"@ + target.name + "': arg "@ + dec(i as nat)
                    + " type mismatch: expected "@ + type_text(target.params[i].ty) + ", got "@
                    + type_text(ty),
            ),
            None => Seq::empty(),
        }
}

/// What is wrong with the arguments of a branch.
pub open spec fn edge_msgs(
    f: FuncView,
    name: Seq<char>,
    dest: BlockId,
    args: Seq<ValueId>,
) -> Seq<Seq<char>> {
    if !has_block(f.blocks, dest) {
        Seq::empty()
    } else {
        let target = the_block(f.blocks, dest);
        if target.params.len() != args.len() {
            seq![
                "branch from '"@ + name + "' to '"@ + target.name + "': expected "@ + dec(
                    target.params.len(),
                ) + " args, got "@ + dec(args.len()),
            ]
        } else {
            gather(args.len(), branch_arg_msgs(f, name, target, args))
        }
    }
}

fn check_edge(
    func: &Function,
    name: &str,
    dest: BlockId,
    args: &Vec<ValueId>,
    errors: &mut Vec<VerifyError>,
)
    ensures
        msgs(final(errors)@) == msgs(old(errors)@) + edge_msgs(func@, name@, dest, args@),
{
    proof {
        lemma_nothing(msgs(errors@));
    }
    if let Some(target) = func.try_block(dest) {
        if target.params.len() != args.len() {
            let mut s = text("branch from '");
            s.append(name);
            s.append("' to '");
            s.append(target.name.as_str());
            s.append("': expected ");
            push_count(&mut s, target.params.len());
            s.append(" args, got ");
            push_count(&mut s, args.len());
            report(errors, s);
        } else {
            let ghost start = msgs(errors@);
            let ghost each = branch_arg_msgs(func@, name@, target@, args@);
            let mut i: usize = 0;
            proof {
                lemma_gather_none(start, each);
            }
            while i < args.len()
                invariant
                    i <= args.len(),
                    target.params.len() == args.len(),
                    each == branch_arg_msgs(func@, name@, target@, args@),
                    msgs(errors@) == start + gather(i as nat, each),
                decreases args.len() - i,
            {
                let ghost before = msgs(errors@);
                proof {
                    lemma_nothing(before);
                }
                if let Some(ty) = func.value_type(args[i]) {
                    if !ty.same(&target.params[i].ty) {
                        let mut s = text("branch from '");
                        s.append(name);
                        s.append("' to '");
                        s.append(target.name.as_str());
                        s.append("': arg ");
                        push_count(&mut s, i);
                        s.append(" type mismatch: expected ");
                        s.append(target.params[i].ty.display().as_str());
                        s.append(", got ");
                        s.append(ty.display().as_str());
                        report(errors, s);
                    }
                }
                proof {
                    assert(msgs(errors@) == before + each(i as int));
                    lemma_gather_step(start, i as nat, each);
                }
                i = i + 1;
            }
        }
    }
}

/// What is wrong with a target of a switch: targets take no arguments.
pub open spec fn switch_target_msgs(f: FuncView, what: Seq<char>, dest: BlockId) -> Seq<Seq<char>> {
    if has_block(f.blocks, dest) {
        only_if(
            the_block(f.blocks, dest).params.len() != 0,
            what + the_block(f.blocks, dest).name + "' has block parameters"@,
        )
    } else {
        Seq::empty()
    }
}

/// What is wrong with the target of each case of a switch.
pub open spec fn case_msgs(f: FuncView, cases: Seq<(i64, BlockId)>) -> spec_fn(int) -> Seq<
    Seq<char>,
> {
    |i: int| switch_target_msgs(f, "switch case target '"@, cases[i].1)
}

fn check_switch_target(func: &Function, what: &str, dest: BlockId, errors: &mut Vec<VerifyError>)
    ensures
        msgs(final(errors)@) == msgs(old(errors)@) + switch_target_msgs(func@, what@, dest),
{
    proof {
        lemma_nothing(msgs(errors@));
    }
    if let Some(target) = func.try_block(dest) {
        if target.params.len() != 0 {
            let mut s = text(what);
            s.append(target.name.as_str());
            s.append("' has block parameters");
            report(errors, s);
        }
    }
}

/// What is wrong with the condition and the arguments of a terminator.
pub open spec fn branch_msgs(f: FuncView, t: TermView, name: Seq<char>) -> Seq<Seq<char>> {
    match t {
        TermView::Branch(dest, args) => edge_msgs(f, name, dest, args),
        TermView::CondBranch { cond, true_dest, true_args, false_dest, false_args } => {
            condition_msgs(f, cond, name) + edge_msgs(f, name, true_dest, true_args) + edge_msgs(
                f,
                name,
                false_dest,
                false_args,
            )
        },
        TermView::Switch { cases, default, .. } => switch_target_msgs(
            f,
            "switch default target '"@,
            default,
        ) + gather(cases.len(), case_msgs(f, cases)),
        _ => Seq::empty(),
    }
}

fn check_branch_types(
    func: &Function,
    term: &Terminator,
    name: &str,
    errors: &mut Vec<VerifyError>,
)
    ensures
        msgs(final(errors)@) == msgs(old(errors)@) + branch_msgs(func@, term@, name@),
{
    proof {
        lemma_nothing(msgs(errors@));
    }
    match term {
        Terminator::Branch(dest, args) => {
            check_edge(func, name, *dest, args, errors);
        },
        Terminator::CondBranch { cond, true_dest, true_args, false_dest, false_args } => {
            check_condition(func, *cond, name, errors);
            check_edge(func, name, *true_dest, true_args, errors);
            check_edge(func, name, *false_dest, false_args, errors);
            assert(msgs(errors@) =~= msgs(old(errors)@) + branch_msgs(func@, term@, name@));
        },
        Terminator::Switch { cases, default, .. } => {
            check_switch_target(func, "switch default target '", *default, errors);
            let ghost start = msgs(errors@);
            let ghost each = case_msgs(func@, cases@);
            let mut i: usize = 0;
            proof {
                lemma_gather_none(start, each);
            }
            while i < cases.len()
                invariant
                    i <= cases.len(),
                    each == case_msgs(func@, cases@),
                    msgs(errors@) == start + gather(i as nat, each),
                decreases cases.len() - i,
            {
                let ghost before = msgs(errors@);
                check_switch_target(func, "switch case target '", cases[i].1, errors);
                proof {
                    assert(msgs(errors@) == before + each(i as int));
                    lemma_gather_step(start, i as nat, each);
                }
                i = i + 1;
            }
            assert(msgs(errors@) =~= msgs(old(errors)@) + branch_msgs(func@, term@, name@));
        },
        _ => {},
    }
}

/// The message about a second block of the same name.
pub open spec fn duplicate_block_msg(f: FuncView, i: int) -> Seq<char> {
    "duplicate block ID "@ + dec(f.blocks[i].id.0 as nat) + ": blocks '"@ + the_block(
        f.blocks,
        f.blocks[i].id,
    ).name + "' and '"@ + f.blocks[i].name + "' share an identity"@
}

/// What is wrong with the identity and the ending of a block.
pub open spec fn structure_msgs(f: FuncView) -> spec_fn(int) -> Seq<Seq<char>> {
    |i: int|
        only_if(
            !is_first_block(f.blocks, f.blocks[i].id, i),
            duplicate_block_msg(f, i),
        ) + only_if(
            f.blocks[i].term is None,
            "block '"@ + f.blocks[i].name + "' has no terminator"@,
        )
}

/// Do two blocks share an identity?
pub open spec fn has_duplicate_blocks(f: FuncView) -> bool {
    exists|i: int|
        0 <= i < f.blocks.len() && !is_first_block(f.blocks, (#[trigger] f.blocks[i]).id, i)
}

fn check_structure(func: &Function, errors: &mut Vec<VerifyError>) -> (dup: bool)
    ensures
        msgs(final(errors)@) == msgs(old(errors)@) + gather(
            func@.blocks.len(),
            structure_msgs(func@),
        ),
        dup == has_duplicate_blocks(func@),
{
    let ghost f = func@;
    let ghost start = msgs(errors@);
    let ghost each = structure_msgs(f);
    let mut dup: bool = false;
    let mut i: usize = 0;
    proof {
        lemma_gather_none(start, each);
    }
    while i < func.blocks.len()
        invariant
            f == func@,
            i <= func.blocks.len(),
            each == structure_msgs(f),
            msgs(errors@) == start + gather(i as nat, each),
            dup == (exists|k: int|
                0 <= k < i && !is_first_block(f.blocks, (#[trigger] f.blocks[k]).id, k)),
        decreases func.blocks.len() - i,
    {
        let ghost before = msgs(errors@);
        let id = func.blocks[i].id;
        proof {
            assert(f.blocks[i as int].id == id);
            lemma_block_pos(f.blocks, id);
        }
        if let Some(first) = func.block_index(id) {
            if first != i {
                proof {
                    assert(!is_first_block(f.blocks, f.blocks[i as int].id, i as int)) by {
                        assert(f.blocks[first as int].id == id);
                        if first > i {
                            assert(f.blocks[i as int].id != id);
                        }
                    }
                }
                let mut s = text("duplicate block ID ");
                push_num(&mut s, id.0);
                s.append(": blocks '");
                s.append(func.blocks[first].name.as_str());
                s.append("' and '");
                s.append(func.blocks[i].name.as_str());
                s.append("' share an identity");
                report(errors, s);
                dup = true;
            }
        }
        let ghost m1 = only_if(
            !is_first_block(f.blocks, f.blocks[i as int].id, i as int),
            duplicate_block_msg(f, i as int),
        );
        assert(msgs(errors@) =~= before + m1);
        if func.blocks[i].terminator.is_none() {
            let mut s = text("block '");
            s.append(func.blocks[i].name.as_str());
            s.append("' has no terminator");
            report(errors, s);
        }
        proof {
            assert(msgs(errors@) =~= before + each(i as int));
            lemma_gather_step(start, i as nat, each);
        }
        i = i + 1;
    }
    dup
}

/// What is wrong with a block that branches to the entry.
pub open spec fn entry_edge_msgs(f: FuncView) -> spec_fn(int) -> Seq<Seq<char>> {
    |i: int|
        only_if(
            targets_of(f.blocks[i]).contains(f.entry),
            "block '"@ + f.blocks[i].name
                + "' branches back into the entry block — entry must have no predecessors"@,
        )
}

fn check_entry_edges(func: &Function, errors: &mut Vec<VerifyError>)
    ensures
        msgs(final(errors)@) == msgs(old(errors)@) + gather(
            func@.blocks.len(),
            entry_edge_msgs(func@),
        ),
{
    let ghost start = msgs(errors@);
    let ghost each = entry_edge_msgs(func@);
    let mut i: usize = 0;
    proof {
        lemma_gather_none(start, each);
    }
    while i < func.blocks.len()
        invariant
            i <= func.blocks.len(),
            each == entry_edge_msgs(func@),
            msgs(errors@) == start + gather(i as nat, each),
        decreases func.blocks.len() - i,
    {
        let ghost before = msgs(errors@);
        proof {
            lemma_nothing(before);
        }
        let targets = func.blocks[i].targets();
        if list_contains(&targets, func.entry) {
            let mut s = text("block '");
            s.append(func.blocks[i].name.as_str());
            s.append("' branches back into the entry block — entry must have no predecessors");
            report(errors, s);
        }
        proof {
            assert(msgs(errors@) == before + each(i as int));
            lemma_gather_step(start, i as nat, each);
        }
        i = i + 1;
    }
}

/// Is there a definition of `v`?
pub open spec fn is_defined(f: FuncView, v: ValueId) -> bool {
    exists|i: int| 0 <= i < defs(f).len() && (#[trigger] defs(f)[i]).id == v
}

/// The message about each value that is read without a definition.
pub open spec fn undefined_msgs(
    f: FuncView,
    uses: Seq<ValueId>,
    place: Seq<char>,
    name: Seq<char>,
) -> spec_fn(int) -> Seq<Seq<char>> {
    |i: int|
        only_if(
            !is_defined(f, uses[i]),
            "value %"@ + dec(uses[i].0 as nat) + place + name + "' but not defined"@,
        )
}

/// The values that each instruction of a block reads without a definition.
pub open spec fn undefined_in_insts(f: FuncView, b: BlockView) -> spec_fn(int) -> Seq<Seq<char>> {
    |j: int|
        gather(
            b.insts[j].kind.args.len(),
            undefined_msgs(f, b.insts[j].kind.args, " used in block '"@, b.name),
        )
}

/// What is wrong with the uses in each block.
pub open spec fn use_msgs(f: FuncView) -> spec_fn(int) -> Seq<Seq<char>> {
    |i: int|
        gather(f.blocks[i].insts.len(), undefined_in_insts(f, f.blocks[i]))
            + match f.blocks[i].term {
            Some(t) => gather(
                term_uses(t).len(),
                undefined_msgs(f, term_uses(t), " used in terminator of block '"@, f.blocks[i].name),
            ),
            None => Seq::empty(),
        }
}

/// The values that are defined.
fn collect_defined_values(func: &Function, all: &Vec<Def>) -> (r: IdSet<ValueId>)
    requires
        all@ == defs(func@),
    ensures
        forall|v: ValueId| #[trigger] r@.contains(v) == is_defined(func@, v),
{
    let mut out: IdSet<ValueId> = IdSet::new();
    let mut i: usize = 0;
    while i < all.len()
        invariant
            i <= all.len(),
            forall|v: ValueId| #[trigger] out@.contains(v) == (exists|k: int|
                0 <= k < i && (#[trigger] all@[k]).id == v),
        decreases all.len() - i,
    {
        let ghost before = out@;
        let added: bool = out.insert(all[i].id);
        proof {
            assert forall|v: ValueId| #[trigger] out@.contains(v) == (exists|k: int|
                0 <= k < i + 1 && (#[trigger] all@[k]).id == v) by {
                if before.contains(v) {
                    let k = choose|k: int| 0 <= k < i && (#[trigger] all@[k]).id == v;
                    assert(all@[k].id == v);
                }
                assert(all@[i as int].id == all[i as int].id);
            }
        }
        i = i + 1;
    }
    out
}

fn check_defined(
    func: &Function,
    defined: &IdSet<ValueId>,
    uses: &Vec<ValueId>,
    place: &str,
    name: &str,
    errors: &mut Vec<VerifyError>,
)
    requires
        forall|v: ValueId| #[trigger] defined@.contains(v) == is_defined(func@, v),
    ensures
        msgs(final(errors)@) == msgs(old(errors)@) + gather(
            uses@.len(),
            undefined_msgs(func@, uses@, place@, name@),
        ),
{
    let ghost start = msgs(errors@);
    let ghost each = undefined_msgs(func@, uses@, place@, name@);
    let mut i: usize = 0;
    proof {
        lemma_gather_none(start, each);
    }
    while i < uses.len()
        invariant
            i <= uses.len(),
            each == undefined_msgs(func@, uses@, place@, name@),
            forall|v: ValueId| #[trigger] defined@.contains(v) == is_defined(func@, v),
            msgs(errors@) == start + gather(i as nat, each),
        decreases uses.len() - i,
    {
        let ghost before = msgs(errors@);
        proof {
            lemma_nothing(before);
        }
        if !defined.contains(&uses[i]) {
            let mut s = text("value %");
            push_num(&mut s, uses[i].0);
            s.append(place);
            s.append(name);
            s.append("' but not defined");
            report(errors, s);
        }
        proof {
            assert(msgs(errors@) == before + each(i as int));
            lemma_gather_step(start, i as nat, each);
        }
        i = i + 1;
    }
}

fn check_uses(func: &Function, defined: &IdSet<ValueId>, errors: &mut Vec<VerifyError>)
    requires
        forall|v: ValueId| #[trigger] defined@.contains(v) == is_defined(func@, v),
    ensures
        msgs(final(errors)@) == msgs(old(errors)@) + gather(func@.blocks.len(), use_msgs(func@)),
{
    let ghost start = msgs(errors@);
    let ghost each = use_msgs(func@);
    let mut i: usize = 0;
    proof {
        lemma_gather_none(start, each);
    }
    while i < func.blocks.len()
        invariant
            i <= func.blocks.len(),
            each == use_msgs(func@),
            forall|v: ValueId| #[trigger] defined@.contains(v) == is_defined(func@, v),
            msgs(errors@) == start + gather(i as nat, each),
        decreases func.blocks.len() - i,
    {
        let ghost before = msgs(errors@);
        let block = &func.blocks[i];
        let ghost inner = undefined_in_insts(func@, block@);
        let mut j: usize = 0;
        proof {
            lemma_gather_none(before, inner);
        }
        while j < block.insts.len()
            invariant
                j <= block.insts.len(),
                inner == undefined_in_insts(func@, block@),
                forall|v: ValueId| #[trigger] defined@.contains(v) == is_defined(func@, v),
                msgs(errors@) == before + gather(j as nat, inner),
            decreases block.insts.len() - j,
        {
            let ghost here = msgs(errors@);
            let uses = inst_uses(&block.insts[j].kind);
            check_defined(
                func,
                defined,
                &uses,
                " used in block '",
                block.name.as_str(),
                errors,
            );
            proof {
                assert(msgs(errors@) == here + inner(j as int));
                lemma_gather_step(before, j as nat, inner);
            }
            j = j + 1;
        }
        let ghost mid = msgs(errors@);
        proof {
            lemma_nothing(mid);
        }
        if let Some(term) = &block.terminator {
            let uses = terminator_uses(term);
            check_defined(
                func,
                defined,
                &uses,
                " used in terminator of block '",
                block.name.as_str(),
                errors,
            );
        }
        proof {
            assert(msgs(errors@) =~= before + each(i as int));
            lemma_gather_step(start, i as nat, each);
        }
        i = i + 1;
    }
}

/// The message about a registered type that its definition contradicts.
pub open spec fn stale_msgs(f: FuncView) -> spec_fn(int) -> Seq<Seq<char>> {
    |i: int|
        {
            let d = defs(f)[i];
            if f.type_cache.contains_key(d.id) {
                only_if(
                    f.type_cache[d.id] != d.ty,
                    "value %"@ + dec(d.id.0 as nat) + " has type '"@ + type_text(
                        f.type_cache[d.id],
                    ) + "' in the type cache but its definition has type '"@ + type_text(d.ty)
                        + "' (call rebuild_type_cache)"@,
                )
            } else {
                Seq::empty()
            }
        }
}

fn check_type_cache_entry(
    func: &Function,
    value: ValueId,
    defining: &IrType,
    errors: &mut Vec<VerifyError>,
)
    ensures
        msgs(final(errors)@) == msgs(old(errors)@) + if func@.type_cache.contains_key(value) {
            only_if(
                func@.type_cache[value] != *defining,
                "value %"@ + dec(value.0 as nat) + " has type '"@ + type_text(
                    func@.type_cache[value],
                ) + "' in the type cache but its definition has type '"@ + type_text(*defining)
                    + "' (call rebuild_type_cache)"@,
            )
        } else {
            Seq::empty()
        },
{
    proof {
        lemma_nothing(msgs(errors@));
    }
    if let Some(cached) = func.cached_value_type(value) {
        if !cached.same(defining) {
            let mut s = text("value %");
            push_num(&mut s, value.0);
            s.append(" has type '");
            s.append(cached.display().as_str());
            s.append("' in the type cache but its definition has type '");
            s.append(defining.display().as_str());
            s.append("' (call rebuild_type_cache)");
            report(errors, s);
        }
    }
}

fn check_type_cache(func: &Function, all: &Vec<Def>, errors: &mut Vec<VerifyError>)
    requires
        all@ == defs(func@),
    ensures
        msgs(final(errors)@) == msgs(old(errors)@) + gather(defs(func@).len(), stale_msgs(func@)),
{
    let ghost start = msgs(errors@);
    let ghost each = stale_msgs(func@);
    let mut i: usize = 0;
    proof {
        lemma_gather_none(start, each);
    }
    while i < all.len()
        invariant
            i <= all.len(),
            all@ == defs(func@),
            each == stale_msgs(func@),
            msgs(errors@) == start + gather(i as nat, each),
        decreases all.len() - i,
    {
        let ghost before = msgs(errors@);
        check_type_cache_entry(func, all[i].id, &all[i].ty, errors);
        proof {
            assert(msgs(errors@) == before + each(i as int));
            lemma_gather_step(start, i as nat, each);
        }
        i = i + 1;
    }
}

/// Is the value of the `i`-th definition defined before?
pub open spec fn defined_before(s: Seq<Def>, i: int) -> bool {
    exists|k: int| 0 <= k < i && (#[trigger] s[k]).id == s[i].id
}

/// The message about a second definition of a value.
pub open spec fn redefinition_msgs(f: FuncView) -> spec_fn(int) -> Seq<Seq<char>> {
    |i: int|
        only_if(
            defined_before(defs(f), i),
            "duplicate value ID %"@ + dec(defs(f)[i].id.0 as nat),
        )
}

fn check_redefinitions(func: &Function, all: &Vec<Def>, errors: &mut Vec<VerifyError>)
    requires
        all@ == defs(func@),
    ensures
        msgs(final(errors)@) == msgs(old(errors)@) + gather(
            defs(func@).len(),
            redefinition_msgs(func@),
        ),
{
    let ghost start = msgs(errors@);
    let ghost each = redefinition_msgs(func@);
    let mut seen: IdSet<ValueId> = IdSet::new();
    let mut i: usize = 0;
    proof {
        lemma_gather_none(start, each);
    }
    while i < all.len()
        invariant
            i <= all.len(),
            all@ == defs(func@),
            each == redefinition_msgs(func@),
            forall|v: ValueId| #[trigger] seen@.contains(v) == (exists|k: int|
                0 <= k < i && (#[trigger] all@[k]).id == v),
            msgs(errors@) == start + gather(i as nat, each),
        decreases all.len() - i,
    {
        let ghost before = msgs(errors@);
        let ghost held = seen@;
        proof {
            lemma_nothing(before);
        }
        let v = all[i].id;
        let fresh: bool = seen.insert(v);
        proof {
            assert(fresh == !defined_before(all@, i as int)) by {
                if held.contains(v) {
                    let k = choose|k: int| 0 <= k < i && (#[trigger] all@[k]).id == v;
                    assert(all@[k].id == all@[i as int].id);
                }
            }
            assert forall|w: ValueId| #[trigger] seen@.contains(w) == (exists|k: int|
                0 <= k < i + 1 && (#[trigger] all@[k]).id == w) by {
                if held.contains(w) {
                    let k = choose|k: int| 0 <= k < i && (#[trigger] all@[k]).id == w;
                    assert(all@[k].id == w);
                }
                assert(all@[i as int].id == v);
            }
        }
        if !fresh {
            let mut s = text("duplicate value ID %");
            push_num(&mut s, v.0);
            report(errors, s);
        }
        proof {
            assert(msgs(errors@) == before + each(i as int));
            lemma_gather_step(start, i as nat, each);
        }
        i = i + 1;
    }
}

/// What is wrong with how each block ends.
pub open spec fn terminator_msgs(f: FuncView) -> spec_fn(int) -> Seq<Seq<char>> {
    |i: int|
        match f.blocks[i].term {
            Some(t) => branch_msgs(f, t, f.blocks[i].name) + return_msgs(f, t, f.blocks[i].name),
            None => Seq::empty(),
        }
}

fn check_terminators(func: &Function, errors: &mut Vec<VerifyError>)
    ensures
        msgs(final(errors)@) == msgs(old(errors)@) + gather(
            func@.blocks.len(),
            terminator_msgs(func@),
        ),
{
    let ghost start = msgs(errors@);
    let ghost each = terminator_msgs(func@);
    let mut i: usize = 0;
    proof {
        lemma_gather_none(start, each);
    }
    while i < func.blocks.len()
        invariant
            i <= func.blocks.len(),
            each == terminator_msgs(func@),
            msgs(errors@) == start + gather(i as nat, each),
        decreases func.blocks.len() - i,
    {
        let ghost before = msgs(errors@);
        proof {
            lemma_nothing(before);
        }
        if let Some(term) = &func.blocks[i].terminator {
            check_branch_types(func, term, func.blocks[i].name.as_str(), errors);
            check_return_type(func, term, func.blocks[i].name.as_str(), errors);
        }
        proof {
            assert(msgs(errors@) =~= before + each(i as int));
            lemma_gather_step(start, i as nat, each);
        }
        i = i + 1;
    }
}

/// What is wrong with the types of each instruction of a block.
pub open spec fn inst_type_msgs(f: FuncView, b: BlockView) -> spec_fn(int) -> Seq<Seq<char>> {
    |j: int| consistency_msgs(f, b.insts[j])
}

/// What is wrong with the types of the instructions of each block.
pub open spec fn block_type_msgs(f: FuncView) -> spec_fn(int) -> Seq<Seq<char>> {
    |i: int| gather(f.blocks[i].insts.len(), inst_type_msgs(f, f.blocks[i]))
}

fn check_instructions(func: &Function, errors: &mut Vec<VerifyError>)
    ensures
        msgs(final(errors)@) == msgs(old(errors)@) + gather(
            func@.blocks.len(),
            block_type_msgs(func@),
        ),
{
    let ghost start = msgs(errors@);
    let ghost each = block_type_msgs(func@);
    let mut i: usize = 0;
    proof {
        lemma_gather_none(start, each);
    }
    while i < func.blocks.len()
        invariant
            i <= func.blocks.len(),
            each == block_type_msgs(func@),
            msgs(errors@) == start + gather(i as nat, each),
        decreases func.blocks.len() - i,
    {
        let ghost before = msgs(errors@);
        let block = &func.blocks[i];
        let ghost inner = inst_type_msgs(func@, block@);
        let mut j: usize = 0;
        proof {
            lemma_gather_none(before, inner);
        }
        while j < block.insts.len()
            invariant
                j <= block.insts.len(),
                inner == inst_type_msgs(func@, block@),
                msgs(errors@) == before + gather(j as nat, inner),
            decreases block.insts.len() - j,
        {
            let ghost here = msgs(errors@);
            check_type_consistency(func, &block.insts[j], errors);
            proof {
                assert(msgs(errors@) == here + inner(j as int));
                lemma_gather_step(before, j as nat, inner);
            }
            j = j + 1;
        }
        proof {
            assert(msgs(errors@) == before + each(i as int));
            lemma_gather_step(start, i as nat, each);
        }
        i = i + 1;
    }
}

/// The message about each target that is no block.
pub open spec fn dangling_msgs(f: FuncView, name: Seq<char>, targets: Seq<BlockId>) -> spec_fn(
    int,
) -> Seq<Seq<char>> {
    |k: int|
        only_if(
            !has_block(f.blocks, targets[k]),
            "block '"@ + name + "' branches to undefined block "@ + dec(targets[k].0 as nat),
        )
}

/// What is wrong with the targets of each block.
pub open spec fn target_msgs(f: FuncView) -> spec_fn(int) -> Seq<Seq<char>> {
    |i: int|
        gather(
            targets_of(f.blocks[i]).len(),
            dangling_msgs(f, f.blocks[i].name, targets_of(f.blocks[i])),
        )
}

fn check_targets(func: &Function, errors: &mut Vec<VerifyError>)
    ensures
        msgs(final(errors)@) == msgs(old(errors)@) + gather(
            func@.blocks.len(),
            target_msgs(func@),
        ),
{
    let ghost start = msgs(errors@);
    let ghost each = target_msgs(func@);
    let mut i: usize = 0;
    proof {
        lemma_gather_none(start, each);
    }
    while i < func.blocks.len()
        invariant
            i <= func.blocks.len(),
            each == target_msgs(func@),
            msgs(errors@) == start + gather(i as nat, each),
        decreases func.blocks.len() - i,
    {
        let ghost before = msgs(errors@);
        let targets = func.blocks[i].targets();
        let ghost name = func.blocks[i as int].name@;
        let ghost inner = dangling_msgs(func@, name, targets@);
        let mut k: usize = 0;
        proof {
            lemma_gather_none(before, inner);
        }
        while k < targets.len()
            invariant
                i < func.blocks.len(),
                k <= targets.len(),
                name == func.blocks[i as int].name@,
                inner == dangling_msgs(func@, name, targets@),
                msgs(errors@) == before + gather(k as nat, inner),
            decreases targets.len() - k,
        {
            let ghost here = msgs(errors@);
            proof {
                lemma_nothing(here);
            }
            if func.block_index(targets[k]).is_none() {
                let mut s = text("block '");
                s.append(func.blocks[i].name.as_str());
                s.append("' branches to undefined block ");
                push_num(&mut s, targets[k].0);
                report(errors, s);
            }
            proof {
                assert(msgs(errors@) == here + inner(k as int));
                lemma_gather_step(before, k as nat, inner);
            }
            k = k + 1;
        }
        proof {
            assert(msgs(errors@) == before + each(i as int));
            lemma_gather_step(start, i as nat, each);
        }
        i = i + 1;
    }
}

/// Where among the first `n` instructions the last one that defines `v` stands.
pub open spec fn last_inst_pos(insts: Seq<InstView>, n: nat, v: ValueId) -> Option<int>
    decreases n,
{
    if n == 0 {
        None
    } else if insts[n - 1].id == v {
        Some(n - 1)
    } else {
        last_inst_pos(insts, (n - 1) as nat, v)
    }
}

fn find_last_inst(block: &BasicBlock, v: ValueId) -> (r: Option<usize>)
    ensures
        match r {
            Some(p) => last_inst_pos(block@.insts, block@.insts.len(), v) == Some(p as int),
            None => last_inst_pos(block@.insts, block@.insts.len(), v) is None,
        },
{
    let mut n: usize = block.insts.len();
    while n > 0
        invariant
            n <= block.insts.len(),
            last_inst_pos(block@.insts, n as nat, v) == last_inst_pos(
                block@.insts,
                block@.insts.len(),
                v,
            ),
        decreases n,
    {
        if same_id(block.insts[n - 1].id, v) {
            return Some(n - 1);
        }
        n = n - 1;
    }
    None
}

/// What is wrong with reading `v` in block `b` before or at place `at`.
///
/// Within the block of its definition a value is read behind it; elsewhere the
/// block of its definition dominates the block that reads it.
pub open spec fn dominance_msg(f: FuncView, b: BlockView, v: ValueId, at: int) -> Seq<Seq<char>> {
    match last_def(defs(f), v) {
        Some(d) => if d.block == b.id {
            match last_inst_pos(b.insts, b.insts.len(), v) {
                Some(p) => only_if(
                    p >= at,
                    "value %"@ + dec(v.0 as nat) + " used before its definition in block '"@
                        + b.name + "'"@,
                ),
                None => Seq::empty(),
            }
        } else {
            only_if(
                !dominates(f, d.block, b.id),
                "value %"@ + dec(v.0 as nat) + " defined in '"@ + the_block(f.blocks, d.block).name
                    + "' does not dominate use in '"@ + b.name + "'"@,
            )
        },
        None => Seq::empty(),
    }
}

/// What is wrong with each of some uses at one place.
pub open spec fn uses_dominance(f: FuncView, b: BlockView, uses: Seq<ValueId>, at: int) -> spec_fn(
    int,
) -> Seq<Seq<char>> {
    |k: int| dominance_msg(f, b, uses[k], at)
}

/// What is wrong with the uses of each instruction of a block.
pub open spec fn insts_dominance(f: FuncView, b: BlockView) -> spec_fn(int) -> Seq<Seq<char>> {
    |j: int|
        gather(
            b.insts[j].kind.args.len(),
            uses_dominance(f, b, b.insts[j].kind.args, j),
        )
}

/// What is wrong with the order of definitions and uses in each block.
pub open spec fn dominance_msgs(f: FuncView) -> spec_fn(int) -> Seq<Seq<char>> {
    |i: int|
        gather(f.blocks[i].insts.len(), insts_dominance(f, f.blocks[i]))
            + match f.blocks[i].term {
            Some(t) => gather(
                term_uses(t).len(),
                uses_dominance(
                    f,
                    f.blocks[i],
                    term_uses(t),
                    f.blocks[i].insts.len() as int,
                ),
            ),
            None => Seq::empty(),
        }
}

/// The block of the last definition of `v`.
fn value_def_block(func: &Function, all: &Vec<Def>, v: ValueId) -> (r: Option<BlockId>)
    requires
        all@ == defs(func@),
    ensures
        match r {
            Some(b) => last_def(defs(func@), v) matches Some(d) && d.block == b && (b == func@.entry
                || has_block(func@.blocks, b)),
            None => last_def(defs(func@), v) is None,
        },
{
    let mut n: usize = all.len();
    proof {
        assert(all@.take(n as int) =~= all@);
    }
    while n > 0
        invariant
            n <= all.len(),
            all@ == defs(func@),
            last_def(all@.take(n as int), v) == last_def(all@, v),
        decreases n,
    {
        proof {
            assert(all@.take(n as int).drop_last() =~= all@.take(n - 1));
            assert(all@.take(n as int).last() == all@[n - 1]);
        }
        if same_id(all[n - 1].id, v) {
            proof {
                lemma_def_block(func@, n - 1);
            }
            return Some(all[n - 1].block);
        }
        n = n - 1;
    }
    proof {
        assert(all@.take(0).len() == 0);
    }
    None
}

fn check_uses_dominance(
    func: &Function,
    all: &Vec<Def>,
    doms: &IdMap<BlockId, IdSet<BlockId>>,
    block: &BasicBlock,
    uses: &Vec<ValueId>,
    at: usize,
    errors: &mut Vec<VerifyError>,
)
    requires
        all@ == defs(func@),
        has_block(func@.blocks, func@.entry),
        has_block(func@.blocks, block@.id),
        forall|b: BlockId| #[trigger] doms@.contains_key(b) == has_dom_entry(func@, b),
        forall|a: BlockId, b: BlockId|
            #![trigger doms@[b]@.contains(a)]
            doms@.contains_key(b) ==> doms@[b]@.contains(a) == dominates(func@, a, b),
    ensures
        msgs(final(errors)@) == msgs(old(errors)@) + gather(
            uses@.len(),
            uses_dominance(func@, block@, uses@, at as int),
        ),
{
    let ghost start = msgs(errors@);
    let ghost each = uses_dominance(func@, block@, uses@, at as int);
    let mut k: usize = 0;
    proof {
        lemma_gather_none(start, each);
    }
    while k < uses.len()
        invariant
            k <= uses.len(),
            all@ == defs(func@),
            has_block(func@.blocks, func@.entry),
            has_block(func@.blocks, block@.id),
            forall|b: BlockId| #[trigger] doms@.contains_key(b) == has_dom_entry(func@, b),
            forall|a: BlockId, b: BlockId|
                #![trigger doms@[b]@.contains(a)]
                doms@.contains_key(b) ==> doms@[b]@.contains(a) == dominates(func@, a, b),
            each == uses_dominance(func@, block@, uses@, at as int),
            msgs(errors@) == start + gather(k as nat, each),
        decreases uses.len() - k,
    {
        let ghost before = msgs(errors@);
        proof {
            lemma_nothing(before);
        }
        let v = uses[k];
        if let Some(home) = value_def_block(func, all, v) {
            if same_id(home, block.id) {
                if let Some(p) = find_last_inst(block, v) {
                    if p >= at {
                        let mut s = text("value %");
                        push_num(&mut s, v.0);
                        s.append(" used before its definition in block '");
                        s.append(block.name.as_str());
                        s.append("'");
                        report(errors, s);
                    }
                }
            } else {
                let above: bool = match doms.get(&block.id) {
                    Some(d) => d.contains(&home),
                    None => false,
                };
                if !above {
                    let mut s = text("value %");
                    push_num(&mut s, v.0);
                    s.append(" defined in '");
                    s.append(func.block(home).name.as_str());
                    s.append("' does not dominate use in '");
                    s.append(block.name.as_str());
                    s.append("'");
                    report(errors, s);
                }
            }
        }
        proof {
            assert(msgs(errors@) == before + each(k as int));
            lemma_gather_step(start, k as nat, each);
        }
        k = k + 1;
    }
}

fn check_dominance(func: &Function, all: &Vec<Def>, errors: &mut Vec<VerifyError>)
    requires
        all@ == defs(func@),
        has_block(func@.blocks, func@.entry),
    ensures
        msgs(final(errors)@) == msgs(old(errors)@) + gather(
            func@.blocks.len(),
            dominance_msgs(func@),
        ),
{
    let doms = compute_dominators(func);
    let ghost start = msgs(errors@);
    let ghost each = dominance_msgs(func@);
    let mut i: usize = 0;
    proof {
        lemma_gather_none(start, each);
    }
    while i < func.blocks.len()
        invariant
            i <= func.blocks.len(),
            all@ == defs(func@),
            has_block(func@.blocks, func@.entry),
            forall|b: BlockId| #[trigger] doms@.contains_key(b) == has_dom_entry(func@, b),
            forall|a: BlockId, b: BlockId|
                #![trigger doms@[b]@.contains(a)]
                doms@.contains_key(b) ==> doms@[b]@.contains(a) == dominates(func@, a, b),
            each == dominance_msgs(func@),
            msgs(errors@) == start + gather(i as nat, each),
        decreases func.blocks.len() - i,
    {
        let ghost before = msgs(errors@);
        let block = &func.blocks[i];
        let ghost inner = insts_dominance(func@, block@);
        let mut j: usize = 0;
        proof {
            assert(func@.blocks[i as int].id == block@.id);
            lemma_gather_none(before, inner);
        }
        while j < block.insts.len()
            invariant
                j <= block.insts.len(),
                all@ == defs(func@),
                has_block(func@.blocks, func@.entry),
                has_block(func@.blocks, block@.id),
                forall|b: BlockId| #[trigger] doms@.contains_key(b) == has_dom_entry(func@, b),
                forall|a: BlockId, b: BlockId|
                    #![trigger doms@[b]@.contains(a)]
                    doms@.contains_key(b) ==> doms@[b]@.contains(a) == dominates(func@, a, b),
                inner == insts_dominance(func@, block@),
                msgs(errors@) == before + gather(j as nat, inner),
            decreases block.insts.len() - j,
        {
            let ghost here = msgs(errors@);
            let uses = inst_uses(&block.insts[j].kind);
            check_uses_dominance(func, all, &doms, block, &uses, j, errors);
            proof {
                assert(msgs(errors@) == here + inner(j as int));
                lemma_gather_step(before, j as nat, inner);
            }
            j = j + 1;
        }
        let ghost mid = msgs(errors@);
        proof {
            lemma_nothing(mid);
        }
        if let Some(term) = &block.terminator {
            let uses = terminator_uses(term);
            check_uses_dominance(func, all, &doms, block, &uses, block.insts.len(), errors);
        }
        proof {
            assert(msgs(errors@) =~= before + each(i as int));
            lemma_gather_step(start, i as nat, each);
        }
        i = i + 1;
    }
}

/// All findings on a function, in order.
///
/// Where two blocks share an identity, nothing else is looked at.
pub open spec fn function_msgs(f: FuncView) -> Seq<Seq<char>> {
    let structure = gather(f.blocks.len(), structure_msgs(f));
    if has_duplicate_blocks(f) {
        structure
    } else {
        structure + only_if(
            the_block(f.blocks, f.entry).params.len() != 0,
            "entry block must not have block parameters"@,
        ) + gather(f.blocks.len(), entry_edge_msgs(f)) + gather(f.blocks.len(), use_msgs(f))
            + gather(defs(f).len(), stale_msgs(f)) + gather(defs(f).len(), redefinition_msgs(f))
            + gather(f.blocks.len(), terminator_msgs(f)) + gather(
            f.blocks.len(),
            block_type_msgs(f),
        ) + gather(f.blocks.len(), target_msgs(f)) + gather(f.blocks.len(), dominance_msgs(f))
    }
}

/// Can the verifier look at the function: is the entry one of its blocks?
pub open spec fn verifiable(f: FuncView) -> bool {
    has_duplicate_blocks(f) || has_block(f.blocks, f.entry)
}

/// Verifies a function; a valid one has no findings.
pub fn verify_function(func: &Function) -> (r: Vec<VerifyError>)
    requires
        verifiable(func@),
    ensures
        msgs(r@) == function_msgs(func@),
{
    let ghost f = func@;
    let mut errors: Vec<VerifyError> = Vec::new();
    proof {
        assert(msgs(errors@) =~= Seq::<Seq<char>>::empty());
    }
    let dup: bool = check_structure(func, &mut errors);
    let ghost m1 = gather(f.blocks.len(), structure_msgs(f));
    proof {
        assert(msgs(errors@) =~= m1);
    }
    if dup {
        return errors;
    }
    if func.block(func.entry).params.len() != 0 {
        report(&mut errors, text("entry block must not have block parameters"));
    }
    let ghost m2 = only_if(
        the_block(f.blocks, f.entry).params.len() != 0,
        "entry block must not have block parameters"@,
    );
    proof {
        assert(msgs(errors@) =~= m1 + m2);
    }
    check_entry_edges(func, &mut errors);
    let all = definitions(func);
    let defined = collect_defined_values(func, &all);
    check_uses(func, &defined, &mut errors);
    check_type_cache(func, &all, &mut errors);
    check_redefinitions(func, &all, &mut errors);
    check_terminators(func, &mut errors);
    check_instructions(func, &mut errors);
    check_targets(func, &mut errors);
    check_dominance(func, &all, &mut errors);
    errors
}

/// The message about a global of no representable size.
pub open spec fn global_msgs(m: ModuleView) -> spec_fn(int) -> Seq<Seq<char>> {
    |i: int|
        only_if(
            !type_fits(m.globals[i].ty, m.layout),
            "global '"@ + m.globals[i].name + "' has type '"@ + type_text(m.globals[i].ty)
                + "' whose byte size overflows the target address space"@,
        )
}

/// The findings on a function, each with its name in front.
pub open spec fn named_msgs(f: FuncView) -> Seq<Seq<char>> {
    Seq::new(
        function_msgs(f).len(),
        |k: int| "in '"@ + f.name + "': "@ + function_msgs(f)[k],
    )
}

/// The findings on each function of a module.
pub open spec fn named_function_msgs(m: ModuleView) -> spec_fn(int) -> Seq<Seq<char>> {
    |i: int| named_msgs(m.functions[i])
}

/// All findings on a module, in order.
pub open spec fn module_msgs(m: ModuleView) -> Seq<Seq<char>> {
    gather(m.globals.len(), global_msgs(m)) + gather(m.functions.len(), named_function_msgs(m))
}

/// Verifies a module; a valid one has no findings.
pub fn verify_module(module: &Module) -> (r: Vec<VerifyError>)
    requires
        forall|i: int|
            0 <= i < module@.functions.len() ==> verifiable(#[trigger] module@.functions[i]),
    ensures
        msgs(r@) == module_msgs(module@),
{
    let ghost m = module@;
    let mut errors: Vec<VerifyError> = Vec::new();
    let ghost each = global_msgs(m);
    let ghost none = Seq::<Seq<char>>::empty();
    proof {
        assert(msgs(errors@) =~= none);
        lemma_gather_none(none, each);
    }
    let mut i: usize = 0;
    while i < module.globals.len()
        invariant
            m == module@,
            i <= module.globals.len(),
            each == global_msgs(m),
            msgs(errors@) == none + gather(i as nat, each),
        decreases module.globals.len() - i,
    {
        let ghost before = msgs(errors@);
        proof {
            lemma_nothing(before);
            assert(m.globals[i as int].ty == module.globals[i as int].ty);
        }
        let global = &module.globals[i];
        match global.ty.try_size_bytes(&module.layout) {
            Err(TypeSizeError::Overflow) => {
                let mut s = text("global '");
                s.append(global.name.as_str());
                s.append("' has type '");
                s.append(global.ty.display().as_str());
                s.append("' whose byte size overflows the target address space");
                report(&mut errors, s);
            },
            Ok(_) => {},
        }
        proof {
            assert(msgs(errors@) == before + each(i as int));
            lemma_gather_step(none, i as nat, each);
        }
        i = i + 1;
    }
    let ghost globals = msgs(errors@);
    let ghost named = named_function_msgs(m);
    proof {
        assert(globals =~= gather(m.globals.len(), each));
        lemma_gather_none(globals, named);
    }
    let mut n: usize = 0;
    while n < module.functions.len()
        invariant
            m == module@,
            n <= module.functions.len(),
            forall|k: int| 0 <= k < m.functions.len() ==> verifiable(#[trigger] m.functions[k]),
            named == named_function_msgs(m),
            msgs(errors@) == globals + gather(n as nat, named),
        decreases module.functions.len() - n,
    {
        let ghost before = msgs(errors@);
        let func = &module.functions[n];
        proof {
            assert(m.functions[n as int] == func@);
        }
        let found = verify_function(func);
        let ghost all = named_msgs(func@);
        let mut k: usize = 0;
        proof {
            assert(before + all.take(0) =~= before);
        }
        while k < found.len()
            invariant
                k <= found.len(),
                msgs(found@) == function_msgs(func@),
                all == named_msgs(func@),
                msgs(errors@) == before + all.take(k as int),
            decreases found.len() - k,
        {
            let mut s = text("in '");
            s.append(func.name.as_str());
            s.append("': ");
            s.append(found[k].msg.as_str());
            proof {
                assert(msgs(found@)[k as int] == found@[k as int].msg@);
                assert(all[k as int] == s@);
                assert(before + all.take(k + 1) =~= before + all.take(k as int) + seq![s@]);
            }
            report(&mut errors, s);
            k = k + 1;
        }
        proof {
            assert(all.take(all.len() as int) =~= all);
            assert(msgs(errors@) == before + named(n as int));
            lemma_gather_step(globals, n as nat, named);
        }
        n = n + 1;
    }
    errors
}

} // verus!
