//! The types of IR values, their sizes and their textual form.

use crate::target::TargetLayout;
use crate::text::{dec, push_dec, text};
use vstd::prelude::*;
use vstd::string::*;

verus! {

/// Widths of integer values.
#[derive(Debug, Clone, Copy, PartialEq, Eq, Hash, Structural)]
pub enum IntWidth {
    I8,
    I16,
    I32,
    I64,
    I128,
}

impl IntWidth {
    /// The number of bits.
    pub open spec fn spec_bits(self) -> u32 {
        match self {
            IntWidth::I8 => 8,
            IntWidth::I16 => 16,
            IntWidth::I32 => 32,
            IntWidth::I64 => 64,
            IntWidth::I128 => 128,
        }
    }

    /// The number of bits.
    pub fn bits(self) -> (r: u32)
        ensures
            r == self.spec_bits(),
    {
        match self {
            IntWidth::I8 => 8,
            IntWidth::I16 => 16,
            IntWidth::I32 => 32,
            IntWidth::I64 => 64,
            IntWidth::I128 => 128,
        }
    }
}

/// Widths of floating-point values.
#[derive(Debug, Clone, Copy, PartialEq, Eq, Hash, Structural)]
pub enum FloatWidth {
    F32,
    F64,
}

impl FloatWidth {
    /// The number of bits.
    pub open spec fn spec_bits(self) -> u32 {
        match self {
            FloatWidth::F32 => 32,
            FloatWidth::F64 => 64,
        }
    }

    /// The number of bits.
    pub fn bits(self) -> (r: u32)
        ensures
            r == self.spec_bits(),
    {
        match self {
            FloatWidth::F32 => 32,
            FloatWidth::F64 => 64,
        }
    }
}

/// The type of an IR value.
#[derive(Debug, PartialEq, Eq)]
pub enum IrType {
    Void,
    Bool,
    Int(IntWidth),
    Float(FloatWidth),
    Ptr(Box<IrType>),
    /// Element type and number of elements.
    Array(Box<IrType>, u64),
    /// Fields in order, packed.
    Struct(Box<TypeList>),
    FuncPtr(Box<FuncSig>),
    Vector { lanes: u8, elem: Box<IrType> },
}

/// A list of types.
#[derive(Debug, PartialEq, Eq)]
pub enum TypeList {
    Nil,
    Cons(IrType, Box<TypeList>),
}

/// The signature behind a function pointer.
#[derive(Debug, PartialEq, Eq)]
pub struct FuncSig {
    pub params: TypeList,
    pub ret: IrType,
}

/// Why a type has no byte size.
#[derive(Debug, Clone, Copy, PartialEq, Eq, Structural)]
pub enum TypeSizeError {
    /// The size exceeds the target's address space.
    Overflow,
}

/// The byte size of a type, over the unbounded integers.
pub open spec fn type_size(ty: IrType, layout: TargetLayout) -> nat
    decreases ty,
{
    match ty {
        IrType::Void => 0,
        IrType::Bool => 1,
        IrType::Int(w) => (w.spec_bits() / 8) as nat,
        IrType::Float(w) => (w.spec_bits() / 8) as nat,
        IrType::Ptr(_) => layout.spec_pointer_bytes() as nat,
        IrType::FuncPtr(_) => layout.spec_pointer_bytes() as nat,
        IrType::Array(elem, n) => type_size(*elem, layout) * (n as nat),
        IrType::Struct(fields) => list_size(*fields, layout),
        IrType::Vector { lanes, elem } => type_size(*elem, layout) * (lanes as nat),
    }
}

/// The byte size of a list of packed fields.
pub open spec fn list_size(list: TypeList, layout: TargetLayout) -> nat
    decreases list,
{
    match list {
        TypeList::Nil => 0,
        TypeList::Cons(head, tail) => type_size(head, layout) + list_size(*tail, layout),
    }
}

/// Does every part of the type have a size that fits the address space?
///
/// A part of an empty array counts too: the element size is computed first.
pub open spec fn type_fits(ty: IrType, layout: TargetLayout) -> bool
    decreases ty,
{
    match ty {
        IrType::Array(elem, n) => type_fits(*elem, layout) && type_size(ty, layout) <= u64::MAX,
        IrType::Struct(fields) => list_fits(*fields, layout),
        IrType::Vector { lanes, elem } => type_fits(*elem, layout) && type_size(ty, layout)
            <= u64::MAX,
        _ => true,
    }
}

/// Do the fields and what they add up to fit the address space?
pub open spec fn list_fits(list: TypeList, layout: TargetLayout) -> bool
    decreases list,
{
    match list {
        TypeList::Nil => true,
        TypeList::Cons(head, tail) => type_fits(head, layout) && list_fits(*tail, layout)
            && list_size(list, layout) <= u64::MAX,
    }
}

/// The textual form of a type.
pub open spec fn type_text(ty: IrType) -> Seq<char>
    decreases ty,
{
    match ty {
        IrType::Void => "void"@,
        IrType::Bool => "bool"@,
        IrType::Int(w) => "i"@ + dec(w.spec_bits() as nat),
        IrType::Float(w) => "f"@ + dec(w.spec_bits() as nat),
        IrType::Ptr(inner) => "ptr<"@ + type_text(*inner) + ">"@,
        IrType::Array(elem, n) => "["@ + dec(n as nat) + " x "@ + type_text(*elem) + "]"@,
        IrType::Struct(fields) => "{"@ + list_text(*fields) + "}"@,
        IrType::FuncPtr(sig) => "fn("@ + list_text(sig.params) + ") -> "@ + type_text(sig.ret),
        IrType::Vector { lanes, elem } => "<"@ + dec(lanes as nat) + " x "@ + type_text(*elem)
            + ">"@,
    }
}

/// The textual form of a list of types, each but the last with a comma behind.
pub open spec fn list_text(list: TypeList) -> Seq<char>
    decreases list,
{
    match list {
        TypeList::Nil => Seq::empty(),
        TypeList::Cons(head, tail) => match *tail {
            TypeList::Nil => type_text(head),
            TypeList::Cons(_, _) => type_text(head) + ", "@ + list_text(*tail),
        },
    }
}

impl IrType {
    /// Are both types the same?
    pub fn same(&self, other: &IrType) -> (r: bool)
        ensures
            r == (*self == *other),
        decreases *self,
    {
        match (self, other) {
            (IrType::Void, IrType::Void) => true,
            (IrType::Bool, IrType::Bool) => true,
            (IrType::Int(a), IrType::Int(b)) => *a == *b,
            (IrType::Float(a), IrType::Float(b)) => *a == *b,
            (IrType::Ptr(a), IrType::Ptr(b)) => a.same(b),
            (IrType::Array(a, n), IrType::Array(b, m)) => *n == *m && a.same(b),
            (IrType::Struct(a), IrType::Struct(b)) => a.same(b),
            (IrType::FuncPtr(a), IrType::FuncPtr(b)) => a.params.same(&b.params) && a.ret.same(
                &b.ret,
            ),
            (
                IrType::Vector { lanes: n, elem: a },
                IrType::Vector { lanes: m, elem: b },
            ) => *n == *m && a.same(b),
            _ => false,
        }
    }

    fn copied(&self) -> (r: IrType)
        ensures
            r == *self,
        decreases *self,
    {
        match self {
            IrType::Void => IrType::Void,
            IrType::Bool => IrType::Bool,
            IrType::Int(w) => IrType::Int(*w),
            IrType::Float(w) => IrType::Float(*w),
            IrType::Ptr(inner) => IrType::Ptr(Box::new(inner.copied())),
            IrType::Array(elem, n) => IrType::Array(Box::new(elem.copied()), *n),
            IrType::Struct(fields) => IrType::Struct(Box::new(fields.copied())),
            IrType::FuncPtr(sig) => IrType::FuncPtr(
                Box::new(FuncSig { params: sig.params.copied(), ret: sig.ret.copied() }),
            ),
            IrType::Vector { lanes, elem } => IrType::Vector {
                lanes: *lanes,
                elem: Box::new(elem.copied()),
            },
        }
    }

    /// Is this an integer type?
    pub fn is_int(&self) -> (r: bool)
        ensures
            r == (*self is Int),
    {
        matches!(self, IrType::Int(_))
    }

    /// Is this a floating-point type?
    pub fn is_float(&self) -> (r: bool)
        ensures
            r == (*self is Float),
    {
        matches!(self, IrType::Float(_))
    }

    /// Is this a data pointer type?
    pub fn is_ptr(&self) -> (r: bool)
        ensures
            r == (*self is Ptr),
    {
        matches!(self, IrType::Ptr(_))
    }

    /// The width of an integer type.
    pub fn int_width(&self) -> (r: Option<IntWidth>)
        ensures
            r == match *self {
                IrType::Int(w) => Some(w),
                _ => None,
            },
    {
        match self {
            IrType::Int(w) => Some(*w),
            _ => None,
        }
    }

    /// The byte size, or an error where it exceeds the address space.
    pub fn try_size_bytes(&self, layout: &TargetLayout) -> (r: Result<u64, TypeSizeError>)
        ensures
            match r {
                Ok(n) => type_fits(*self, *layout) && n == type_size(*self, *layout),
                Err(e) => !type_fits(*self, *layout) && e == TypeSizeError::Overflow,
            },
        decreases *self,
    {
        match self {
            IrType::Void => Ok(0),
            IrType::Bool => Ok(1),
            IrType::Int(w) => Ok((w.bits() / 8) as u64),
            IrType::Float(w) => Ok((w.bits() / 8) as u64),
            IrType::Ptr(_) => Ok(layout.pointer_bytes()),
            IrType::FuncPtr(_) => Ok(layout.pointer_bytes()),
            IrType::Array(elem, n) => match elem.try_size_bytes(layout) {
                Ok(each) => scaled(each, *n),
                Err(e) => Err(e),
            },
            IrType::Struct(fields) => fields.try_size_bytes(layout),
            IrType::Vector { lanes, elem } => match elem.try_size_bytes(layout) {
                Ok(each) => scaled(each, *lanes as u64),
                Err(e) => Err(e),
            },
        }
    }

    /// The byte size of a type that fits the address space.
    pub fn size_bytes(&self, layout: &TargetLayout) -> (r: u64)
        requires
            type_fits(*self, *layout),
        ensures
            r == type_size(*self, *layout),
    {
        match self.try_size_bytes(layout) {
            Ok(n) => n,
            Err(_) => 0,
        }
    }

    /// The textual form.
    pub fn display(&self) -> (r: String)
        ensures
            r@ == type_text(*self),
        decreases *self,
    {
        match self {
            IrType::Void => text("void"),
            IrType::Bool => text("bool"),
            IrType::Int(w) => {
                let mut s = text("i");
                push_dec(&mut s, w.bits() as u64);
                s
            },
            IrType::Float(w) => {
                let mut s = text("f");
                push_dec(&mut s, w.bits() as u64);
                s
            },
            IrType::Ptr(inner) => {
                let mut s = text("ptr<");
                s.append(inner.display().as_str());
                s.append(">");
                s
            },
            IrType::Array(elem, n) => {
                let mut s = text("[");
                push_dec(&mut s, *n);
                s.append(" x ");
                s.append(elem.display().as_str());
                s.append("]");
                s
            },
            IrType::Struct(fields) => {
                let mut s = text("{");
                s.append(fields.display().as_str());
                s.append("}");
                s
            },
            IrType::FuncPtr(sig) => {
                let mut s = text("fn(");
                s.append(sig.params.display().as_str());
                s.append(") -> ");
                s.append(sig.ret.display().as_str());
                s
            },
            IrType::Vector { lanes, elem } => {
                let mut s = text("<");
                push_dec(&mut s, *lanes as u64);
                s.append(" x ");
                s.append(elem.display().as_str());
                s.append(">");
                s
            },
        }
    }
}

fn scaled(each: u64, n: u64) -> (r: Result<u64, TypeSizeError>)
    ensures
        match r {
            Ok(total) => total == each * n,
            Err(e) => each * n > u64::MAX && e == TypeSizeError::Overflow,
        },
{
    match each.checked_mul(n) {
        Some(total) => Ok(total),
        None => Err(TypeSizeError::Overflow),
    }
}

impl TypeList {
    /// Are both lists the same?
    pub fn same(&self, other: &TypeList) -> (r: bool)
        ensures
            r == (*self == *other),
        decreases *self,
    {
        match (self, other) {
            (TypeList::Nil, TypeList::Nil) => true,
            (TypeList::Cons(a, s), TypeList::Cons(b, t)) => a.same(b) && s.same(t),
            _ => false,
        }
    }

    fn copied(&self) -> (r: TypeList)
        ensures
            r == *self,
        decreases *self,
    {
        match self {
            TypeList::Nil => TypeList::Nil,
            TypeList::Cons(head, tail) => TypeList::Cons(head.copied(), Box::new(tail.copied())),
        }
    }

    fn try_size_bytes(&self, layout: &TargetLayout) -> (r: Result<u64, TypeSizeError>)
        ensures
            match r {
                Ok(n) => list_fits(*self, *layout) && n == list_size(*self, *layout),
                Err(e) => !list_fits(*self, *layout) && e == TypeSizeError::Overflow,
            },
        decreases *self,
    {
        match self {
            TypeList::Nil => Ok(0),
            TypeList::Cons(head, tail) => match head.try_size_bytes(layout) {
                Ok(first) => match tail.try_size_bytes(layout) {
                    Ok(rest) => match first.checked_add(rest) {
                        Some(total) => Ok(total),
                        None => Err(TypeSizeError::Overflow),
                    },
                    Err(e) => Err(e),
                },
                Err(e) => Err(e),
            },
        }
    }

    fn display(&self) -> (r: String)
        ensures
            r@ == list_text(*self),
        decreases *self,
    {
        match self {
            TypeList::Nil => {
                let s = String::new();
                assert(s@ =~= Seq::<char>::empty());
                s
            },
            TypeList::Cons(head, tail) => {
                let mut s = head.display();
                match &**tail {
                    TypeList::Nil => {},
                    TypeList::Cons(_, _) => {
                        s.append(", ");
                        s.append(tail.display().as_str());
                    },
                }
                s
            },
        }
    }
}

impl Clone for IrType {
    fn clone(&self) -> (r: Self)
        ensures
            r == *self,
    {
        self.copied()
    }
}

impl Clone for TypeList {
    fn clone(&self) -> (r: Self)
        ensures
            r == *self,
    {
        self.copied()
    }
}

/// Copies an optional type.
pub fn copy_type(ty: Option<&IrType>) -> (r: Option<IrType>)
    ensures
        match (ty, r) {
            (Some(a), Some(b)) => *a == b,
            (None, None) => true,
            _ => false,
        },
{
    match ty {
        Some(t) => Some(t.clone()),
        None => None,
    }
}

/// The types of two lists, one behind the other.
pub open spec fn joined(a: TypeList, b: TypeList) -> TypeList
    decreases a,
{
    match a {
        TypeList::Nil => b,
        TypeList::Cons(head, tail) => TypeList::Cons(head, Box::new(joined(*tail, b))),
    }
}

/// Scalars have the bytes of their bits, pointers one size, and larger types the
/// bytes of their parts: no padding anywhere.
pub proof fn sizes_add_up(elem: IrType, m: u64, n: u64, a: TypeList, b: TypeList, layout: TargetLayout)
    requires
        m + n <= u64::MAX,
    ensures
        type_size(IrType::Void, layout) == 0,
        type_size(IrType::Bool, layout) == 1,
        8 * type_size(IrType::Int(IntWidth::I8), layout) == 8,
        8 * type_size(IrType::Int(IntWidth::I16), layout) == 16,
        8 * type_size(IrType::Int(IntWidth::I32), layout) == 32,
        8 * type_size(IrType::Int(IntWidth::I64), layout) == 64,
        8 * type_size(IrType::Int(IntWidth::I128), layout) == 128,
        8 * type_size(IrType::Float(FloatWidth::F32), layout) == 32,
        8 * type_size(IrType::Float(FloatWidth::F64), layout) == 64,
        8 * type_size(IrType::Ptr(Box::new(elem)), TargetLayout::LP64) == 64,
        type_size(IrType::Ptr(Box::new(elem)), layout) == type_size(
            IrType::FuncPtr(Box::new(FuncSig { params: a, ret: elem })),
            layout,
        ),
        type_size(IrType::Array(Box::new(elem), 0), layout) == 0,
        type_size(IrType::Array(Box::new(elem), 1), layout) == type_size(elem, layout),
        type_size(IrType::Array(Box::new(elem), (m + n) as u64), layout) == type_size(
            IrType::Array(Box::new(elem), m),
            layout,
        ) + type_size(IrType::Array(Box::new(elem), n), layout),
        m <= u8::MAX ==> type_size(
            IrType::Vector { lanes: m as u8, elem: Box::new(elem) },
            layout,
        ) == type_size(IrType::Array(Box::new(elem), m), layout),
        type_size(IrType::Struct(Box::new(TypeList::Cons(elem, Box::new(TypeList::Nil)))), layout)
            == type_size(elem, layout),
        type_size(IrType::Struct(Box::new(joined(a, b))), layout) == type_size(
            IrType::Struct(Box::new(a)),
            layout,
        ) + type_size(IrType::Struct(Box::new(b)), layout),
{
    lemma_joined(a, b, layout);
    let nil = TypeList::Nil;
    let one = TypeList::Cons(elem, Box::new(nil));
    assert(list_size(nil, layout) == 0);
    assert(list_size(one, layout) == type_size(elem, layout) + list_size(nil, layout));
    let e = type_size(elem, layout);
    assert(e * (m + n) == e * m + e * n) by (nonlinear_arith);
}

proof fn lemma_joined(a: TypeList, b: TypeList, layout: TargetLayout)
    ensures
        list_size(joined(a, b), layout) == list_size(a, layout) + list_size(b, layout),
    decreases a,
{
    match a {
        TypeList::Nil => {},
        TypeList::Cons(head, tail) => lemma_joined(*tail, b, layout),
    }
}

} // verus!
