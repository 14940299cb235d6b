//! Call resolution: a call by name of a function of the module becomes a call by
//! number.

use crate::ir::inst::{
    BasicBlock, BlockView, FuncRef, FuncView, Function, InstKind, InstView, KindView, Module,
    ModuleView, Op,
};
use crate::opt::pass::Pass;
use crate::text::{same_text, text};
use vstd::prelude::*;

verus! {

/// The number of the last function with a name, among the first `n`.
pub open spec fn named(functions: Seq<FuncView>, n: nat, name: Seq<char>) -> Option<u32>
    decreases n,
{
    if n == 0 {
        None
    } else if functions[n - 1].name == name {
        Some((n - 1) as u32)
    } else {
        named(functions, (n - 1) as nat, name)
    }
}

/// The call by number that an operation becomes, if it does.
pub open spec fn resolved_op(m: ModuleView, op: Op) -> Option<Op> {
    match op {
        Op::CallExternal(name) => match named(m.functions, m.functions.len(), name) {
            Some(i) => Some(Op::CallInternal(i)),
            None => None,
        },
        _ => None,
    }
}

/// An instruction with its call resolved.
pub open spec fn resolved_inst(m: ModuleView, i: InstView) -> InstView {
    match resolved_op(m, i.kind.op) {
        Some(op) => InstView { kind: KindView { op, args: i.kind.args }, ..i },
        None => i,
    }
}

/// A block with its calls resolved.
pub open spec fn resolved_block(m: ModuleView, b: BlockView) -> BlockView {
    BlockView { insts: Seq::new(b.insts.len(), |k: int| resolved_inst(m, b.insts[k])), ..b }
}

/// A function with its calls resolved.
pub open spec fn resolved_func(m: ModuleView, f: FuncView) -> FuncView {
    FuncView { blocks: Seq::new(f.blocks.len(), |b: int| resolved_block(m, f.blocks[b])), ..f }
}

/// A module with its calls resolved.
pub open spec fn resolved_module(m: ModuleView) -> ModuleView {
    ModuleView {
        functions: Seq::new(m.functions.len(), |i: int| resolved_func(m, m.functions[i])),
        ..m
    }
}

/// Does a block hold a call by name of a function of the module?
pub open spec fn block_resolves(m: ModuleView, b: BlockView) -> bool {
    exists|k: int|
        0 <= k < b.insts.len() && resolved_op(m, (#[trigger] b.insts[k]).kind.op) is Some
}

/// Does a function hold a call by name of a function of the module?
pub open spec fn func_resolves(m: ModuleView, f: FuncView) -> bool {
    exists|b: int| 0 <= b < f.blocks.len() && block_resolves(m, #[trigger] f.blocks[b])
}

/// Does a module hold a call by name of one of its functions?
pub open spec fn module_resolves(m: ModuleView) -> bool {
    exists|i: int| 0 <= i < m.functions.len() && func_resolves(m, #[trigger] m.functions[i])
}

/// A resolved call goes to a function of the name that was called.
pub proof fn resolved_call_has_name(m: ModuleView, name: Seq<char>)
    requires
        m.functions.len() <= u32::MAX,
        resolved_op(m, Op::CallExternal(name)) is Some,
    ensures
        ({
            let i = named(m.functions, m.functions.len(), name)->0;
            resolved_op(m, Op::CallExternal(name)) == Some(Op::CallInternal(i)) && i
                < m.functions.len() && m.functions[i as int].name == name
        }),
{
    lemma_named(m.functions, m.functions.len(), name);
}

proof fn lemma_named(functions: Seq<FuncView>, n: nat, name: Seq<char>)
    requires
        n <= functions.len(),
        functions.len() <= u32::MAX,
    ensures
        named(functions, n, name) matches Some(i) ==> i < n && functions[i as int].name == name,
        named(functions, n, name) is None ==> forall|k: int|
            0 <= k < n ==> (#[trigger] functions[k]).name != name,
    decreases n,
{
    if n > 0 {
        lemma_named(functions, (n - 1) as nat, name);
    }
}

/// After the pass no call by name is left that names a function of the module.
pub proof fn nothing_is_left_to_resolve(m: ModuleView)
    ensures
        !module_resolves(resolved_module(m)),
{
    let r = resolved_module(m);
    assert forall|i: int, b: int, k: int|
        0 <= i < r.functions.len() && 0 <= b < r.functions[i].blocks.len() && 0 <= k
            < r.functions[i].blocks[b].insts.len() implies resolved_op(
        r,
        (#[trigger] r.functions[i].blocks[b].insts[k]).kind.op,
    ) is None by {
        let x = m.functions[i].blocks[b].insts[k];
        assert(r.functions[i].blocks[b].insts[k] == resolved_inst(m, x));
        match x.kind.op {
            Op::CallExternal(name) => {
                lemma_named_same(m.functions, r.functions, m.functions.len(), name);
            },
            _ => {},
        }
    }
    assert(!module_resolves(r)) by {
        if module_resolves(r) {
            let i = choose|i: int| 0 <= i < r.functions.len() && func_resolves(r, #[trigger] r.functions[i]);
            let b = choose|b: int|
                0 <= b < r.functions[i].blocks.len() && block_resolves(r, #[trigger] r.functions[i].blocks[b]);
            let k = choose|k: int|
                0 <= k < r.functions[i].blocks[b].insts.len() && resolved_op(
                    r,
                    (#[trigger] r.functions[i].blocks[b].insts[k]).kind.op,
                ) is Some;
            assert(resolved_op(r, r.functions[i].blocks[b].insts[k].kind.op) is None);
        }
    }
}

proof fn lemma_named_same(a: Seq<FuncView>, b: Seq<FuncView>, n: nat, name: Seq<char>)
    requires
        n <= a.len(),
        a.len() == b.len(),
        forall|i: int| 0 <= i < a.len() ==> (#[trigger] a[i]).name == b[i].name,
    ensures
        named(a, n, name) == named(b, n, name),
    decreases n,
{
    if n > 0 {
        lemma_named_same(a, b, (n - 1) as nat, name);
        assert(a[n - 1].name == b[n - 1].name);
    }
}

/// The names of the functions of a module, in order.
fn function_names(module: &Module) -> (r: Vec<String>)
    ensures
        r@.len() == module@.functions.len(),
        forall|i: int| 0 <= i < r@.len() ==> (#[trigger] r@[i])@ == module@.functions[i].name,
{
    let mut out: Vec<String> = Vec::new();
    let mut i: usize = 0;
    while i < module.functions.len()
        invariant
            i <= module.functions@.len(),
            out@.len() == i,
            forall|k: int| 0 <= k < i ==> (#[trigger] out@[k])@ == module@.functions[k].name,
        decreases module.functions@.len() - i,
    {
        out.push(text(module.functions[i].name.as_str()));
        i = i + 1;
    }
    out
}

fn find_named(names: &Vec<String>, name: &str, Ghost(m): Ghost<ModuleView>) -> (r: Option<u32>)
    requires
        names@.len() == m.functions.len(),
        forall|i: int| 0 <= i < names@.len() ==> (#[trigger] names@[i])@ == m.functions[i].name,
    ensures
        r == named(m.functions, m.functions.len(), name@),
{
    let mut i: usize = names.len();
    while i > 0
        invariant
            i <= names@.len(),
            names@.len() == m.functions.len(),
            forall|k: int| 0 <= k < names@.len() ==> (#[trigger] names@[k])@ == m.functions[k].name,
            named(m.functions, i as nat, name@) == named(
                m.functions,
                m.functions.len(),
                name@,
            ),
        decreases i,
    {
        let p: usize = i - 1;
        if same_text(names[p].as_str(), name) {
            return Some(p as u32);
        }
        i = p;
    }
    None
}

fn resolve_kind(kind: &InstKind, names: &Vec<String>, Ghost(m): Ghost<ModuleView>) -> (r: Option<
    u32,
>)
    requires
        names@.len() == m.functions.len(),
        forall|i: int| 0 <= i < names@.len() ==> (#[trigger] names@[i])@ == m.functions[i].name,
    ensures
        match r {
            Some(i) => resolved_op(m, kind@.op) == Some(Op::CallInternal(i)) && (kind matches InstKind::Call(
                FuncRef::External(_),
                _,
            )),
            None => resolved_op(m, kind@.op) is None,
        },
{
    match kind {
        InstKind::Call(callee, _) => match callee {
            FuncRef::Internal(_) => None,
            FuncRef::External(name) => find_named(names, name.as_str(), Ghost(m)),
            FuncRef::Indirect(_) => None,
        },
        _ => None,
    }
}

fn set_internal(kind: &mut InstKind, index: u32)
    requires
        old(kind) matches InstKind::Call(FuncRef::External(_), _),
    ensures
        final(kind)@ == (KindView { op: Op::CallInternal(index), args: old(kind)@.args }),
{
    match kind {
        InstKind::Call(callee, _) => {
            *callee = FuncRef::Internal(index);
        },
        _ => {},
    }
}

fn resolve_block(block: &mut BasicBlock, names: &Vec<String>, Ghost(m): Ghost<ModuleView>) -> (
    changed: bool)
    requires
        names@.len() == m.functions.len(),
        forall|i: int| 0 <= i < names@.len() ==> (#[trigger] names@[i])@ == m.functions[i].name,
    ensures
        final(block)@ == resolved_block(m, old(block)@),
        changed == block_resolves(m, old(block)@),
{
    let ghost b = block@;
    let mut changed: bool = false;
    let mut k: usize = 0;
    while k < block.insts.len()
        invariant
            k <= b.insts.len(),
            block.insts@.len() == b.insts.len(),
            block@ == (BlockView { insts: block@.insts, ..b }),
            names@.len() == m.functions.len(),
            forall|i: int| 0 <= i < names@.len() ==> (#[trigger] names@[i])@ == m.functions[i].name,
            forall|j: int|
                0 <= j < k ==> (#[trigger] block.insts@[j])@ == resolved_inst(m, b.insts[j]),
            forall|j: int| k <= j < b.insts.len() ==> (#[trigger] block.insts@[j])@ == b.insts[j],
            changed == exists|j: int|
                0 <= j < k && resolved_op(m, (#[trigger] b.insts[j]).kind.op) is Some,
        decreases b.insts.len() - k,
    {
        proof {
            assert(block.insts@[k as int]@ == b.insts[k as int]);
        }
        match resolve_kind(&block.insts[k].kind, names, Ghost(m)) {
            Some(i) => {
                set_internal(&mut block.insts[k].kind, i);
                changed = true;
            },
            None => {},
        }
        k = k + 1;
    }
    proof {
        assert(block@.insts =~= resolved_block(m, b).insts);
    }
    changed
}

fn resolve_function(func: &mut Function, names: &Vec<String>, Ghost(m): Ghost<ModuleView>) -> (
    changed: bool)
    requires
        names@.len() == m.functions.len(),
        forall|i: int| 0 <= i < names@.len() ==> (#[trigger] names@[i])@ == m.functions[i].name,
    ensures
        final(func)@ == resolved_func(m, old(func)@),
        changed == func_resolves(m, old(func)@),
{
    let ghost f = func@;
    let mut changed: bool = false;
    let mut i: usize = 0;
    while i < func.blocks.len()
        invariant
            i <= f.blocks.len(),
            func.blocks@.len() == f.blocks.len(),
            func@ == (FuncView { blocks: func@.blocks, ..f }),
            names@.len() == m.functions.len(),
            forall|i: int| 0 <= i < names@.len() ==> (#[trigger] names@[i])@ == m.functions[i].name,
            forall|k: int|
                0 <= k < i ==> (#[trigger] func.blocks@[k])@ == resolved_block(m, f.blocks[k]),
            forall|k: int| i <= k < f.blocks.len() ==> (#[trigger] func.blocks@[k])@ == f.blocks[k],
            changed == exists|k: int| 0 <= k < i && block_resolves(m, #[trigger] f.blocks[k]),
        decreases f.blocks.len() - i,
    {
        proof {
            assert(func.blocks@[i as int]@ == f.blocks[i as int]);
        }
        if resolve_block(&mut func.blocks[i], names, Ghost(m)) {
            changed = true;
        }
        i = i + 1;
    }
    proof {
        assert(func@.blocks =~= resolved_func(m, f).blocks);
    }
    changed
}

/// The call resolution pass.
pub struct CallResolve;

impl Pass for CallResolve {
    open spec fn accepts(&self, m: ModuleView) -> bool {
        true
    }

    open spec fn outcome(&self, before: ModuleView, after: ModuleView, changed: bool) -> bool {
        after == resolved_module(before) && changed == module_resolves(before)
    }

    fn name(&self) -> (r: &'static str)
        ensures
            r@ == "call-resolve"@,
    {
        "call-resolve"
    }

    fn run(&self, module: &mut Module) -> (changed: bool) {
        let ghost m = module@;
        let names = function_names(module);
        let mut changed: bool = false;
        let mut i: usize = 0;
        while i < module.functions.len()
            invariant
                i <= m.functions.len(),
                module.functions@.len() == m.functions.len(),
                module@ == (ModuleView { functions: module@.functions, ..m }),
                names@.len() == m.functions.len(),
                forall|k: int|
                    0 <= k < names@.len() ==> (#[trigger] names@[k])@ == m.functions[k].name,
                forall|k: int|
                    0 <= k < i ==> (#[trigger] module.functions@[k])@ == resolved_func(
                        m,
                        m.functions[k],
                    ),
                forall|k: int|
                    i <= k < m.functions.len() ==> (#[trigger] module.functions@[k])@
                        == m.functions[k],
                changed == exists|k: int| 0 <= k < i && func_resolves(m, #[trigger] m.functions[k]),
            decreases m.functions.len() - i,
        {
            proof {
                assert(module.functions@[i as int]@ == m.functions[i as int]);
            }
            if resolve_function(&mut module.functions[i], &names, Ghost(m)) {
                changed = true;
            }
            i = i + 1;
        }
        proof {
            assert(module@.functions =~= resolved_module(m).functions);
        }
        changed
    }
}

} // verus!
