//! Common-subexpression elimination within a block.
//!
//! Two pure instructions of one block that compute the same expression on the
//! same operands give the same value. The second is dropped, and what reads it
//! reads the first.

use crate::ids::{same_id, IdMap, IdSet};
use crate::ir::inst::{
    defs, types_of_defs, BasicBlock, BlockView, CmpOp, FuncRef, FuncView, Function, Inst, InstKind,
    InstView, KindView, Module, ModuleView, Op, ValueId,
};
use crate::ir::types::{FloatWidth, IntWidth, IrType};
use crate::ir::walk::{renamed_func, substitute_uses_batch};
use crate::opt::edit::{func_without, remove_insts};
use crate::opt::fpenv::{
    analyze_fpenv_effects, fpenv_sensitive, is_barrier, is_fpenv_sensitive, may_run,
};
use crate::opt::ints::{sext, sign_extend};
use crate::opt::pass::Pass;
use crate::text::{same_text, text};
use vstd::prelude::*;

verus! {

/// What identifies a pure computation.
#[derive(Debug)]
pub struct Key {
    /// Which operation.
    pub tag: u32,
    /// The operands, in ascending order where the order does not matter.
    pub operands: Vec<ValueId>,
    /// The data of the operation that is a number.
    pub aux: i128,
    /// The data of the operation that is a name.
    pub name: Option<String>,
    /// The type of the result.
    pub ty: IrType,
}

/// The model of a key.
pub struct KeyView {
    pub tag: u32,
    pub operands: Seq<ValueId>,
    pub aux: i128,
    pub name: Option<Seq<char>>,
    pub ty: IrType,
}

impl Key {
    /// The model.
    pub open spec fn view(&self) -> KeyView {
        KeyView {
            tag: self.tag,
            operands: self.operands@,
            aux: self.aux,
            name: match self.name {
                Some(n) => Some(n@),
                None => None,
            },
            ty: self.ty,
        }
    }
}

/// The number of a comparison.
pub open spec fn compare_number(op: CmpOp) -> i128 {
    match op {
        CmpOp::Eq => 0,
        CmpOp::Ne => 1,
        CmpOp::Lt => 2,
        CmpOp::Le => 3,
        CmpOp::Gt => 4,
        CmpOp::Ge => 5,
    }
}

/// The number of an operation that is a pure computation.
pub open spec fn op_tag(op: Op) -> Option<u32> {
    match op {
        Op::ConstInt(_, _) => Some(1),
        Op::ConstFloat(_, _) => Some(2),
        Op::ConstBool(_) => Some(3),
        Op::IAdd => Some(10),
        Op::ISub => Some(11),
        Op::IMul => Some(12),
        Op::IDiv => Some(13),
        Op::IMod => Some(14),
        Op::INeg => Some(15),
        Op::FAdd => Some(20),
        Op::FSub => Some(21),
        Op::FMul => Some(22),
        Op::FDiv => Some(23),
        Op::FNeg => Some(24),
        Op::FAbs => Some(25),
        Op::FSqrt => Some(26),
        Op::FPow => Some(27),
        Op::ICmp(_) => Some(30),
        Op::FCmp(_) => Some(31),
        Op::And => Some(40),
        Op::Or => Some(41),
        Op::Not => Some(42),
        Op::Select => Some(43),
        Op::BitAnd => Some(50),
        Op::BitOr => Some(51),
        Op::BitXor => Some(52),
        Op::BitNot => Some(53),
        Op::Shl => Some(54),
        Op::LShr => Some(55),
        Op::AShr => Some(56),
        Op::CountLeadingZeros => Some(57),
        Op::CountTrailingZeros => Some(58),
        Op::PopCount => Some(59),
        Op::IntToFloat(_) => Some(60),
        Op::FloatToInt(_) => Some(61),
        Op::FloatExtend(_) => Some(62),
        Op::FloatTrunc(_) => Some(63),
        Op::IntExtend(_, _) => Some(64),
        Op::IntTrunc(_) => Some(65),
        Op::PtrToInt => Some(66),
        Op::IntToPtr(_) => Some(67),
        Op::GetElementPtr => Some(70),
        Op::ExtractField(_) => Some(80),
        Op::InsertField(_) => Some(81),
        Op::GlobalAddr(_) => Some(90),
        _ => None,
    }
}

/// The data of an operation that is a number. Widths of constants are in the
/// type of the result.
pub open spec fn op_aux(op: Op) -> i128 {
    match op {
        Op::ConstInt(v, w) => sext(v, w),
        Op::ConstFloat(b, _) => b as i128,
        Op::ConstBool(b) => if b {
            1
        } else {
            0
        },
        Op::ICmp(c) => compare_number(c),
        Op::FCmp(c) => compare_number(c),
        Op::IntToFloat(w) => w.spec_bits() as i128,
        Op::FloatToInt(w) => w.spec_bits() as i128,
        Op::FloatExtend(w) => w.spec_bits() as i128,
        Op::FloatTrunc(w) => w.spec_bits() as i128,
        Op::IntExtend(w, signed) => (w.spec_bits() + if signed {
            0x1_0000_0000int
        } else {
            0
        }) as i128,
        Op::IntTrunc(w) => w.spec_bits() as i128,
        Op::ExtractField(i) => i as i128,
        Op::InsertField(i) => i as i128,
        _ => 0,
    }
}

/// The data of an operation that is a name.
pub open spec fn op_name(op: Op) -> Option<Seq<char>> {
    match op {
        Op::GlobalAddr(n) => Some(n),
        _ => None,
    }
}

/// Does the order of the operands not matter?
pub open spec fn commutes(op: Op) -> bool {
    match op {
        Op::IAdd => true,
        Op::IMul => true,
        Op::FAdd => true,
        Op::FMul => true,
        Op::And => true,
        Op::Or => true,
        Op::BitAnd => true,
        Op::BitOr => true,
        Op::BitXor => true,
        Op::ICmp(c) => c == CmpOp::Eq || c == CmpOp::Ne,
        Op::FCmp(c) => c == CmpOp::Eq || c == CmpOp::Ne,
        _ => false,
    }
}

/// Two operands in ascending order.
pub open spec fn ordered(a: ValueId, b: ValueId) -> Seq<ValueId> {
    if a.0 <= b.0 {
        seq![a, b]
    } else {
        seq![b, a]
    }
}

/// The key of an instruction, if it is a pure computation.
pub open spec fn key_of(i: InstView) -> Option<KeyView> {
    match op_tag(i.kind.op) {
        Some(tag) => Some(
            KeyView {
                tag,
                operands: if commutes(i.kind.op) {
                    ordered(i.kind.args[0], i.kind.args[1])
                } else {
                    i.kind.args
                },
                aux: op_aux(i.kind.op),
                name: op_name(i.kind.op),
                ty: i.ty,
            },
        ),
        None => None,
    }
}

/// An operation without the data that the type of the result or nothing depends
/// on.
pub open spec fn bare_op(op: Op) -> Op {
    match op {
        Op::ConstInt(v, w) => Op::ConstInt(sext(v, w), IntWidth::I128),
        Op::ConstFloat(b, _) => Op::ConstFloat(b, FloatWidth::F64),
        Op::IntToPtr(_) => Op::IntToPtr(IrType::Void),
        _ => op,
    }
}

/// Instructions with the same key compute the same: the operations agree but for
/// the width of a constant and the type behind a pointer, which the common type
/// of the result gives, and the operands agree but for their order where it does
/// not matter.
#[verifier::rlimit(60)]
pub proof fn same_key_same_computation(a: InstView, b: InstView)
    requires
        key_of(a) is Some,
        key_of(a) == key_of(b),
        commutes(a.kind.op) ==> a.kind.args.len() == 2,
        commutes(b.kind.op) ==> b.kind.args.len() == 2,
    ensures
        bare_op(a.kind.op) == bare_op(b.kind.op),
        a.ty == b.ty,
        a.kind.args == b.kind.args || (commutes(a.kind.op) && a.kind.args == seq![
            b.kind.args[1],
            b.kind.args[0],
        ]),
{
    let x = a.kind.op;
    let y = b.kind.op;
    assert(op_tag(x) == op_tag(y));
    assert(op_aux(x) == op_aux(y));
    assert(op_name(x) == op_name(y));
    assert(commutes(x) == commutes(y));
    if commutes(x) {
        let p = a.kind.args;
        let q = b.kind.args;
        assert(p =~= seq![p[0], p[1]]);
        assert(q =~= seq![q[0], q[1]]);
        let op = ordered(p[0], p[1]);
        let oq = ordered(q[0], q[1]);
        assert(op[0] == oq[0] && op[1] == oq[1]);
    }
}

/// Where the order of the operands does not matter, it makes no difference to the
/// key.
pub proof fn operand_order_is_no_difference(i: InstView, a: ValueId, b: ValueId)
    requires
        commutes(i.kind.op),
    ensures
        key_of(InstView { kind: KindView { op: i.kind.op, args: seq![a, b] }, ..i }) == key_of(
            InstView { kind: KindView { op: i.kind.op, args: seq![b, a] }, ..i },
        ),
{
    if a.0 == b.0 {
        assert(a == b);
    }
}

/// Nothing that reads or writes memory, and no call, has a key.
pub proof fn only_pure_computations_have_a_key(i: InstView)
    requires
        key_of(i) is Some,
    ensures
        !(i.kind.op is Load),
        !(i.kind.op is Store),
        !(i.kind.op is VolatileLoad),
        !(i.kind.op is VolatileStore),
        !(i.kind.op is VLoad),
        !(i.kind.op is VStore),
        !(i.kind.op is Alloca),
        !(i.kind.op is CallInternal),
        !(i.kind.op is CallExternal),
        !(i.kind.op is CallIndirect),
        !(i.kind.op is RuntimeCall),
{
}

fn canon(a: ValueId, b: ValueId) -> (r: Vec<ValueId>)
    ensures
        r@ == ordered(a, b),
{
    let mut r: Vec<ValueId> = Vec::new();
    if a.0 <= b.0 {
        r.push(a);
        r.push(b);
    } else {
        r.push(b);
        r.push(a);
    }
    proof {
        assert(r@ =~= ordered(a, b));
    }
    r
}

fn pair(a: ValueId, b: ValueId) -> (r: Vec<ValueId>)
    ensures
        r@ == seq![a, b],
{
    let mut r: Vec<ValueId> = Vec::new();
    r.push(a);
    r.push(b);
    proof {
        assert(r@ =~= seq![a, b]);
    }
    r
}

fn single(a: ValueId) -> (r: Vec<ValueId>)
    ensures
        r@ == seq![a],
{
    let mut r: Vec<ValueId> = Vec::new();
    r.push(a);
    proof {
        assert(r@ =~= seq![a]);
    }
    r
}

fn nothing() -> (r: Vec<ValueId>)
    ensures
        r@ == Seq::<ValueId>::empty(),
{
    let r: Vec<ValueId> = Vec::new();
    proof {
        assert(r@ =~= Seq::<ValueId>::empty());
    }
    r
}

fn number_of(op: CmpOp) -> (r: i128)
    ensures
        r == compare_number(op),
{
    match op {
        CmpOp::Eq => 0,
        CmpOp::Ne => 1,
        CmpOp::Lt => 2,
        CmpOp::Le => 3,
        CmpOp::Gt => 4,
        CmpOp::Ge => 5,
    }
}

fn compare_operands(op: CmpOp, a: ValueId, b: ValueId) -> (r: Vec<ValueId>)
    ensures
        r@ == if op == CmpOp::Eq || op == CmpOp::Ne {
            ordered(a, b)
        } else {
            seq![a, b]
        },
{
    match op {
        CmpOp::Eq => canon(a, b),
        CmpOp::Ne => canon(a, b),
        _ => pair(a, b),
    }
}

/// The parts of a key that the operation gives.
fn key_parts(kind: &InstKind) -> (r: Option<(u32, Vec<ValueId>, i128)>)
    requires
        !(kind is GlobalAddr),
    ensures
        match r {
            Some(p) => op_tag(kind@.op) == Some(p.0) && op_aux(kind@.op) == p.2 && op_name(
                kind@.op,
            ) is None && p.1@ == if commutes(kind@.op) {
                ordered(kind@.args[0], kind@.args[1])
            } else {
                kind@.args
            },
            None => op_tag(kind@.op) is None,
        },
{
    match kind {
        InstKind::ConstInt(v, w) => Some((1, nothing(), sign_extend(*v, *w))),
        InstKind::ConstFloat(v, _) => Some((2, nothing(), *v as i128)),
        InstKind::ConstBool(b) => Some(
            (
                3,
                nothing(),
                if *b {
                    1
                } else {
                    0
                },
            ),
        ),
        InstKind::IAdd(a, b) => Some((10, canon(*a, *b), 0)),
        InstKind::ISub(a, b) => Some((11, pair(*a, *b), 0)),
        InstKind::IMul(a, b) => Some((12, canon(*a, *b), 0)),
        InstKind::IDiv(a, b) => Some((13, pair(*a, *b), 0)),
        InstKind::IMod(a, b) => Some((14, pair(*a, *b), 0)),
        InstKind::INeg(a) => Some((15, single(*a), 0)),
        InstKind::FAdd(a, b) => Some((20, canon(*a, *b), 0)),
        InstKind::FSub(a, b) => Some((21, pair(*a, *b), 0)),
        InstKind::FMul(a, b) => Some((22, canon(*a, *b), 0)),
        InstKind::FDiv(a, b) => Some((23, pair(*a, *b), 0)),
        InstKind::FNeg(a) => Some((24, single(*a), 0)),
        InstKind::FAbs(a) => Some((25, single(*a), 0)),
        InstKind::FSqrt(a) => Some((26, single(*a), 0)),
        InstKind::FPow(a, b) => Some((27, pair(*a, *b), 0)),
        InstKind::ICmp(op, a, b) => Some((30, compare_operands(*op, *a, *b), number_of(*op))),
        InstKind::FCmp(op, a, b) => Some((31, compare_operands(*op, *a, *b), number_of(*op))),
        InstKind::And(a, b) => Some((40, canon(*a, *b), 0)),
        InstKind::Or(a, b) => Some((41, canon(*a, *b), 0)),
        InstKind::Not(a) => Some((42, single(*a), 0)),
        InstKind::Select(c, t, f) => {
            let mut list = pair(*c, *t);
            list.push(*f);
            proof {
                assert(list@ =~= seq![*c, *t, *f]);
            }
            Some((43, list, 0))
        },
        InstKind::BitAnd(a, b) => Some((50, canon(*a, *b), 0)),
        InstKind::BitOr(a, b) => Some((51, canon(*a, *b), 0)),
        InstKind::BitXor(a, b) => Some((52, canon(*a, *b), 0)),
        InstKind::BitNot(a) => Some((53, single(*a), 0)),
        InstKind::Shl(a, b) => Some((54, pair(*a, *b), 0)),
        InstKind::LShr(a, b) => Some((55, pair(*a, *b), 0)),
        InstKind::AShr(a, b) => Some((56, pair(*a, *b), 0)),
        InstKind::CountLeadingZeros(a) => Some((57, single(*a), 0)),
        InstKind::CountTrailingZeros(a) => Some((58, single(*a), 0)),
        InstKind::PopCount(a) => Some((59, single(*a), 0)),
        InstKind::IntToFloat(a, w) => Some((60, single(*a), w.bits() as i128)),
        InstKind::FloatToInt(a, w) => Some((61, single(*a), w.bits() as i128)),
        InstKind::FloatExtend(a, w) => Some((62, single(*a), w.bits() as i128)),
        InstKind::FloatTrunc(a, w) => Some((63, single(*a), w.bits() as i128)),
        InstKind::IntExtend(a, w, signed) => {
            let sign: i128 = if *signed {
                0x1_0000_0000
            } else {
                0
            };
            Some((64, single(*a), w.bits() as i128 + sign))
        },
        InstKind::IntTrunc(a, w) => Some((65, single(*a), w.bits() as i128)),
        InstKind::PtrToInt(a) => Some((66, single(*a), 0)),
        InstKind::IntToPtr(a, _) => Some((67, single(*a), 0)),
        InstKind::GetElementPtr(base, indices) => {
            let mut list = single(*base);
            crate::ids::extend_list(&mut list, indices);
            Some((70, list, 0))
        },
        InstKind::ExtractField(a, i) => Some((80, single(*a), *i as i128)),
        InstKind::InsertField(a, i, v) => Some((81, pair(*a, *v), *i as i128)),
        InstKind::Call(callee, _) => match callee {
            FuncRef::Internal(_) => None,
            FuncRef::External(_) => None,
            FuncRef::Indirect(_) => None,
        },
        _ => None,
    }
}

/// The key of an instruction, if it is a pure computation.
pub fn instruction_key(inst: &Inst) -> (r: Option<Key>)
    ensures
        match r {
            Some(k) => key_of(inst@) == Some(k@),
            None => key_of(inst@) is None,
        },
{
    match &inst.kind {
        InstKind::GlobalAddr(name) => Some(
            Key {
                tag: 90,
                operands: nothing(),
                aux: 0,
                name: Some(text(name.as_str())),
                ty: inst.ty.clone(),
            },
        ),
        _ => match key_parts(&inst.kind) {
            Some((tag, operands, aux)) => Some(
                Key { tag, operands, aux, name: None, ty: inst.ty.clone() },
            ),
            None => None,
        },
    }
}

fn same_list(a: &Vec<ValueId>, b: &Vec<ValueId>) -> (r: bool)
    ensures
        r == (a@ == b@),
{
    if a.len() != b.len() {
        return false;
    }
    let mut i: usize = 0;
    while i < a.len()
        invariant
            i <= a@.len(),
            a@.len() == b@.len(),
            forall|k: int| 0 <= k < i ==> #[trigger] a@[k] == b@[k],
        decreases a@.len() - i,
    {
        if !same_id(a[i], b[i]) {
            return false;
        }
        i = i + 1;
    }
    proof {
        assert(a@ =~= b@);
    }
    true
}

fn same_name(a: &Option<String>, b: &Option<String>) -> (r: bool)
    ensures
        r == match (*a, *b) {
            (Some(x), Some(y)) => x@ == y@,
            (None, None) => true,
            _ => false,
        },
{
    match (a, b) {
        (Some(x), Some(y)) => same_text(x.as_str(), y.as_str()),
        (None, None) => true,
        _ => false,
    }
}

impl Key {
    /// Do two keys identify the same computation?
    pub fn same(&self, other: &Key) -> (r: bool)
        ensures
            r == (self@ == other@),
    {
        self.tag == other.tag && self.aux == other.aux && same_list(
            &self.operands,
            &other.operands,
        ) && same_name(&self.name, &other.name) && self.ty.same(&other.ty)
    }
}

/// Is an instruction a pure computation that may be shared? Where the
/// floating-point environment may change, `held` keeps what is sensitive to it.
pub open spec fn shareable(i: InstView, held: bool) -> bool {
    key_of(i) is Some && !(held && fpenv_sensitive(i.kind.op))
}

/// The first of the first `n` instructions that computes what `k` identifies.
pub open spec fn first_with(s: Seq<InstView>, n: nat, k: KeyView, held: bool) -> Option<ValueId>
    decreases n,
{
    if n == 0 {
        None
    } else {
        match first_with(s, (n - 1) as nat, k, held) {
            Some(v) => Some(v),
            None => if shareable(s[n - 1], held) && key_of(s[n - 1]) == Some(k) {
                Some(s[n - 1].id)
            } else {
                None
            },
        }
    }
}

/// The earlier instruction of the list that computes what instruction `j` does.
pub open spec fn earlier(s: Seq<InstView>, j: int, held: bool) -> Option<ValueId> {
    if shareable(s[j], held) {
        first_with(s, j as nat, key_of(s[j])->0, held)
    } else {
        None
    }
}

/// Which of the first `n` instructions are read no more, and what is read
/// instead, added to `m`.
pub open spec fn block_rewrites(
    s: Seq<InstView>,
    n: nat,
    held: bool,
    m: Map<ValueId, ValueId>,
) -> Map<ValueId, ValueId>
    decreases n,
{
    if n == 0 {
        m
    } else {
        let before = block_rewrites(s, (n - 1) as nat, held, m);
        match earlier(s, n - 1, held) {
            Some(v) => before.insert(s[n - 1].id, v),
            None => before,
        }
    }
}

/// Which instructions of the first `n` blocks are read no more, and what is read
/// instead.
pub open spec fn rewrites_upto(blocks: Seq<BlockView>, n: nat, held: bool) -> Map<ValueId, ValueId>
    decreases n,
{
    if n == 0 {
        Map::empty()
    } else {
        let s = blocks[n - 1].insts;
        block_rewrites(s, s.len(), held, rewrites_upto(blocks, (n - 1) as nat, held))
    }
}

/// Which instructions of a function are read no more, and what is read instead.
pub open spec fn rewrites_of(f: FuncView, held: bool) -> Map<ValueId, ValueId> {
    rewrites_upto(f.blocks, f.blocks.len(), held)
}

/// Is a computation repeated in some block?
pub open spec fn repeats(f: FuncView, held: bool) -> bool {
    rewrites_of(f, held) != Map::<ValueId, ValueId>::empty()
}

/// A function whose blocks compute nothing twice.
pub open spec fn shared_func(f: FuncView, held: bool) -> FuncView {
    if repeats(f, held) {
        let m = rewrites_of(f, held);
        let g = func_without(renamed_func(f, m), m.dom());
        FuncView { type_cache: types_of_defs(defs(g)), ..g }
    } else {
        f
    }
}

/// What is read instead of an instruction is not itself dropped from the same
/// block.
pub proof fn rewrites_do_not_chain(s: Seq<InstView>, j: int, held: bool)
    requires
        0 <= j < s.len(),
        earlier(s, j, held) is Some,
        forall|a: int, b: int| 0 <= a < b < s.len() ==> (#[trigger] s[a]).id != (#[trigger] s[b]).id,
    ensures
        exists|i: int|
            0 <= i < j && #[trigger] s[i].id == earlier(s, j, held)->0 && key_of(s[i]) == key_of(s[j])
                && earlier(s, i, held) is None,
{
    let k = key_of(s[j])->0;
    lemma_first_with(s, j as nat, k, held);
}

pub proof fn lemma_first_with(s: Seq<InstView>, n: nat, k: KeyView, held: bool)
    requires
        n <= s.len(),
        first_with(s, n, k, held) is Some,
    ensures
        exists|i: int|
            0 <= i < n && #[trigger] s[i].id == first_with(s, n, k, held)->0 && shareable(s[i], held)
                && key_of(s[i]) == Some(k) && first_with(s, i as nat, k, held) is None,
    decreases n,
{
    if first_with(s, (n - 1) as nat, k, held) is Some {
        lemma_first_with(s, (n - 1) as nat, k, held);
        let i = choose|i: int|
            0 <= i < n - 1 && #[trigger] s[i].id == first_with(s, (n - 1) as nat, k, held)->0
                && shareable(s[i], held) && key_of(s[i]) == Some(k) && first_with(
                s,
                i as nat,
                k,
                held,
            ) is None;
        assert(s[i].id == first_with(s, n, k, held)->0);
    } else {
        assert(s[n - 1].id == first_with(s, n, k, held)->0);
    }
}

/// The first entry of a list with a key.
spec fn lookup(seen: Seq<(Key, ValueId)>, k: KeyView) -> Option<ValueId>
    decreases seen.len(),
{
    if seen.len() == 0 {
        None
    } else {
        match lookup(seen.drop_last(), k) {
            Some(v) => Some(v),
            None => if seen.last().0@ == k {
                Some(seen.last().1)
            } else {
                None
            },
        }
    }
}

proof fn lemma_lookup_at(seen: Seq<(Key, ValueId)>, n: int, k: KeyView)
    requires
        0 <= n < seen.len(),
        seen[n].0@ == k,
        forall|i: int| 0 <= i < n ==> (#[trigger] seen[i]).0@ != k,
    ensures
        lookup(seen, k) == Some(seen[n].1),
    decreases seen.len(),
{
    let t = seen.drop_last();
    if n < t.len() {
        lemma_lookup_at(t, n, k);
    } else {
        lemma_lookup_none(t, k);
    }
}

proof fn lemma_lookup_none(seen: Seq<(Key, ValueId)>, k: KeyView)
    requires
        forall|i: int| 0 <= i < seen.len() ==> (#[trigger] seen[i]).0@ != k,
    ensures
        lookup(seen, k) is None,
    decreases seen.len(),
{
    if seen.len() > 0 {
        lemma_lookup_none(seen.drop_last(), k);
        assert(seen[seen.len() - 1].0@ != k);
    }
}

fn find_key(seen: &Vec<(Key, ValueId)>, k: &Key) -> (r: Option<ValueId>)
    ensures
        r == lookup(seen@, k@),
{
    let mut i: usize = 0;
    while i < seen.len()
        invariant
            i <= seen@.len(),
            forall|j: int| 0 <= j < i ==> (#[trigger] seen@[j]).0@ != k@,
        decreases seen@.len() - i,
    {
        if seen[i].0.same(k) {
            proof {
                lemma_lookup_at(seen@, i as int, k@);
            }
            return Some(seen[i].1);
        }
        i = i + 1;
    }
    proof {
        lemma_lookup_none(seen@, k@);
    }
    None
}

fn collect_block_rewrites(block: &BasicBlock, held: bool, rewrites: &mut IdMap<ValueId, ValueId>)
    ensures
        final(rewrites)@ == block_rewrites(
            block@.insts,
            block@.insts.len(),
            held,
            old(rewrites)@,
        ),
{
    let ghost s = block@.insts;
    let ghost m = rewrites@;
    let mut seen: Vec<(Key, ValueId)> = Vec::new();
    let mut j: usize = 0;
    while j < block.insts.len()
        invariant
            s == block@.insts,
            j <= s.len(),
            s.len() == block.insts@.len(),
            rewrites@ == block_rewrites(s, j as nat, held, m),
            forall|k: KeyView| #[trigger]
                lookup(seen@, k) == first_with(s, j as nat, k, held),
        decreases s.len() - j,
    {
        let inst = &block.insts[j];
        let ghost before = seen@;
        proof {
            assert(s[j as int] == inst@);
        }
        if !(held && is_fpenv_sensitive(&inst.kind)) {
            match instruction_key(inst) {
                Some(k) => match find_key(&seen, &k) {
                    Some(first) => {
                        rewrites.insert(inst.id, first);
                    },
                    None => {
                        seen.push((k, inst.id));
                        proof {
                            assert(seen@.drop_last() =~= before);
                        }
                    },
                },
                None => {},
            }
        }
        proof {
            assert forall|k: KeyView| #[trigger]
                lookup(seen@, k) == first_with(s, (j + 1) as nat, k, held) by {
                assert(lookup(before, k) == first_with(s, j as nat, k, held));
            }
        }
        j = j + 1;
    }
}

fn collect_rewrites(func: &Function, held: bool) -> (r: IdMap<ValueId, ValueId>)
    ensures
        r@ == rewrites_of(func@, held),
{
    let mut rewrites: IdMap<ValueId, ValueId> = IdMap::new();
    let mut i: usize = 0;
    while i < func.blocks.len()
        invariant
            i <= func.blocks@.len(),
            rewrites@ == rewrites_upto(func@.blocks, i as nat, held),
        decreases func.blocks@.len() - i,
    {
        proof {
            assert(func@.blocks[i as int] == func.blocks@[i as int]@);
        }
        collect_block_rewrites(&func.blocks[i], held, &mut rewrites);
        i = i + 1;
    }
    rewrites
}

fn share_in_function(func: &mut Function, held: bool) -> (changed: bool)
    ensures
        final(func)@ == shared_func(old(func)@, held),
        changed == repeats(old(func)@, held),
{
    let rewrites = collect_rewrites(func, held);
    if rewrites.is_empty() {
        return false;
    }
    substitute_uses_batch(func, &rewrites);
    let dead = IdSet::from_list(rewrites.keys());
    proof {
        assert(dead@ =~= rewrites@.dom());
    }
    remove_insts(func, &dead);
    func.rebuild_type_cache();
    true
}

/// The pass that shares computations within each block.
pub struct LocalCse;

/// May the floating-point environment change while the function numbered `i`
/// runs?
pub open spec fn environment_unsure(m: ModuleView, i: int) -> bool {
    may_run(m, |op: Op| is_barrier(op), i)
}

/// A module whose blocks compute nothing twice.
pub open spec fn shared_module(m: ModuleView) -> ModuleView {
    ModuleView {
        functions: Seq::new(
            m.functions.len(),
            |i: int| shared_func(m.functions[i], environment_unsure(m, i)),
        ),
        ..m
    }
}

/// Is a computation repeated in some block of a module?
pub open spec fn anything_repeats(m: ModuleView) -> bool {
    exists|i: int|
        0 <= i < m.functions.len() && repeats(#[trigger] m.functions[i], environment_unsure(m, i))
}

impl Pass for LocalCse {
    open spec fn accepts(&self, m: ModuleView) -> bool {
        true
    }

    open spec fn outcome(&self, before: ModuleView, after: ModuleView, changed: bool) -> bool {
        after == shared_module(before) && changed == anything_repeats(before)
    }

    fn name(&self) -> (r: &'static str)
        ensures
            r@ == "local-cse"@,
    {
        "local-cse"
    }

    fn run(&self, module: &mut Module) -> (changed: bool) {
        let ghost m = module@;
        let effects = analyze_fpenv_effects(module);
        let mut changed: bool = false;
        let mut i: usize = 0;
        while i < module.functions.len()
            invariant
                i <= m.functions.len(),
                module.functions@.len() == m.functions.len(),
                module@ == (ModuleView { functions: module@.functions, ..m }),
                effects.may_cross_fpenv_barrier@.len() == m.functions.len(),
                forall|a: int|
                    0 <= a < m.functions.len() ==> #[trigger] effects.may_cross_fpenv_barrier@[a]
                        == environment_unsure(m, a),
                forall|k: int|
                    0 <= k < i ==> (#[trigger] module.functions@[k])@ == shared_func(
                        m.functions[k],
                        environment_unsure(m, k),
                    ),
                forall|k: int|
                    i <= k < m.functions.len() ==> (#[trigger] module.functions@[k])@
                        == m.functions[k],
                changed == exists|k: int|
                    0 <= k < i && repeats(#[trigger] m.functions[k], environment_unsure(m, k)),
            decreases m.functions.len() - i,
        {
            proof {
                assert(module.functions@[i as int]@ == m.functions[i as int]);
            }
            let held = effects.may_cross_fpenv_barrier[i];
            if share_in_function(&mut module.functions[i], held) {
                changed = true;
            }
            i = i + 1;
        }
        proof {
            assert(module@.functions =~= shared_module(m).functions);
        }
        changed
    }
}

} // verus!
