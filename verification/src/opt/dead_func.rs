//! Dead-function elimination: a function that nothing calls is dropped, and the
//! calls of the others are numbered anew.

use crate::ir::inst::{
    BasicBlock, BlockView, FuncRef, FuncView, Function, InstKind, InstView, KindView, Module,
    ModuleView, Op,
};
use crate::lists::{lemma_masked_len, lemma_masked_map, masked, retain_mask};
use crate::opt::fpenv::calls_internal;
use crate::opt::insts::{all_insts, insts_of, refs_view};
use crate::opt::pass::Pass;
use crate::text::{same_text, text};
use vstd::prelude::*;

verus! {

/// Does `f` call a function outside the module by this name?
pub open spec fn calls_name(f: FuncView, name: Seq<char>) -> bool {
    exists|k: int|
        0 <= k < insts_of(f).len() && (#[trigger] insts_of(f)[k]).kind.op == Op::CallExternal(name)
}

/// Does the module call its function numbered `i`?
pub open spec fn is_called(m: ModuleView, i: int) -> bool {
    exists|a: int| 0 <= a < m.functions.len() && calls_internal(#[trigger] m.functions[a], i)
}

/// Does the module call anything by this name?
pub open spec fn is_called_by_name(m: ModuleView, name: Seq<char>) -> bool {
    exists|a: int| 0 <= a < m.functions.len() && calls_name(#[trigger] m.functions[a], name)
}

/// Is the function numbered `i` kept? The first one is, and each that is called
/// by number or by name.
pub open spec fn is_kept(m: ModuleView, i: int) -> bool {
    i == 0 || is_called(m, i) || is_called_by_name(m, m.functions[i].name)
}

/// Which functions are kept.
pub open spec fn kept_mask(m: ModuleView) -> Seq<bool> {
    Seq::new(m.functions.len(), |i: int| is_kept(m, i))
}

/// How many of the first `n` places are kept.
pub open spec fn kept_below(keep: Seq<bool>, n: nat) -> nat
    decreases n,
{
    if n == 0 {
        0
    } else {
        kept_below(keep, (n - 1) as nat) + if keep[n - 1] {
            1nat
        } else {
            0nat
        }
    }
}

/// An operation with the number of its callee among the kept functions.
pub open spec fn renumbered_op(keep: Seq<bool>, op: Op) -> Op {
    match op {
        Op::CallInternal(c) => if c < keep.len() && keep[c as int] {
            Op::CallInternal(kept_below(keep, c as nat) as u32)
        } else {
            op
        },
        _ => op,
    }
}

/// An instruction with its callee numbered anew.
pub open spec fn renumbered_inst(keep: Seq<bool>, i: InstView) -> InstView {
    InstView { kind: KindView { op: renumbered_op(keep, i.kind.op), args: i.kind.args }, ..i }
}

/// A block with its callees numbered anew.
pub open spec fn renumbered_block(keep: Seq<bool>, b: BlockView) -> BlockView {
    BlockView { insts: Seq::new(b.insts.len(), |k: int| renumbered_inst(keep, b.insts[k])), ..b }
}

/// A function with its callees numbered anew.
pub open spec fn renumbered_func(keep: Seq<bool>, f: FuncView) -> FuncView {
    FuncView { blocks: Seq::new(f.blocks.len(), |b: int| renumbered_block(keep, f.blocks[b])), ..f }
}

/// Is there a function that is not kept?
pub open spec fn has_dead_func(m: ModuleView) -> bool {
    m.functions.len() > 1 && exists|i: int| 0 <= i < m.functions.len() && !#[trigger] kept_mask(m)[i]
}

/// The kept functions, with their callees numbered anew.
pub open spec fn kept_functions(m: ModuleView) -> Seq<FuncView> {
    let kept = masked(m.functions, kept_mask(m));
    Seq::new(kept.len(), |i: int| renumbered_func(kept_mask(m), kept[i]))
}

/// A module without dead functions.
pub open spec fn live_functions(m: ModuleView) -> ModuleView {
    if has_dead_func(m) {
        ModuleView { functions: kept_functions(m), ..m }
    } else {
        m
    }
}

/// What is kept stands where the number of kept places before it says.
pub proof fn lemma_masked_at<T>(s: Seq<T>, keep: Seq<bool>, i: int)
    requires
        0 <= i < s.len(),
        keep[i],
    ensures
        kept_below(keep, i as nat) < masked(s, keep).len(),
        masked(s, keep)[kept_below(keep, i as nat) as int] == s[i],
    decreases s.len(),
{
    lemma_masked_count(s.drop_last(), keep);
    if i < s.len() - 1 {
        lemma_masked_at(s.drop_last(), keep, i);
    }
}

proof fn lemma_masked_count<T>(s: Seq<T>, keep: Seq<bool>)
    ensures
        masked(s, keep).len() == kept_below(keep, s.len()),
    decreases s.len(),
{
    if s.len() > 0 {
        lemma_masked_count(s.drop_last(), keep);
    }
}

/// A call of a kept function goes to the same function afterwards.
pub proof fn calls_keep_their_callee(m: ModuleView, c: u32)
    requires
        has_dead_func(m),
        m.functions.len() <= u32::MAX,
        c < m.functions.len(),
        is_kept(m, c as int),
    ensures
        renumbered_op(kept_mask(m), Op::CallInternal(c)) matches Op::CallInternal(d) && d
            < live_functions(m).functions.len() && live_functions(m).functions[d as int]
            == renumbered_func(kept_mask(m), m.functions[c as int]),
{
    let keep = kept_mask(m);
    lemma_masked_at(m.functions, keep, c as int);
    lemma_masked_len(m.functions, keep);
}

/// The first function stays the first.
pub proof fn first_function_stays_first(m: ModuleView)
    requires
        m.functions.len() > 0,
    ensures
        live_functions(m).functions.len() > 0,
        live_functions(m).functions[0] == if has_dead_func(m) {
            renumbered_func(kept_mask(m), m.functions[0])
        } else {
            m.functions[0]
        },
{
    if has_dead_func(m) {
        lemma_masked_at(m.functions, kept_mask(m), 0);
    }
}

/// Every call by number keeps a function to go to: a callee of the module is
/// never dropped.
pub proof fn callees_are_kept(m: ModuleView, a: int, c: int)
    requires
        0 <= a < m.functions.len(),
        0 <= c < m.functions.len(),
        calls_internal(m.functions[a], c),
    ensures
        is_kept(m, c),
{
}

/// The calls of a function: by number, and by name.
fn collect_calls(func: &Function, numbers: &mut Vec<u32>, names: &mut Vec<String>)
    ensures
        forall|c: u32| #[trigger]
            final(numbers)@.contains(c) == (old(numbers)@.contains(c) || calls_internal(
                func@,
                c as int,
            )),
        forall|n: Seq<char>| #[trigger]
            has_name(final(names)@, n) == (has_name(old(names)@, n) || calls_name(func@, n)),
{
    let list = all_insts(func);
    let ghost s = insts_of(func@);
    let ghost nums0 = numbers@;
    let ghost names0 = names@;
    let mut i: usize = 0;
    while i < list.len()
        invariant
            i <= list@.len(),
            s == insts_of(func@),
            s == refs_view(list@),
            forall|c: u32| #[trigger]
                numbers@.contains(c) == (nums0.contains(c) || exists|k: int|
                    0 <= k < i && (#[trigger] s[k]).kind.op == Op::CallInternal(c)),
            forall|n: Seq<char>| #[trigger]
                has_name(names@, n) == (has_name(names0, n) || exists|k: int|
                    0 <= k < i && (#[trigger] s[k]).kind.op == Op::CallExternal(n)),
        decreases list@.len() - i,
    {
        let ghost nums = numbers@;
        let ghost texts = names@;
        proof {
            assert(s[i as int] == list@[i as int]@);
        }
        match &list[i].kind {
            InstKind::Call(callee, _) => match callee {
                FuncRef::Internal(c) => {
                    numbers.push(*c);
                    proof {
                        assert(s[i as int].kind.op == Op::CallInternal(*c));
                        assert forall|d: u32| #[trigger]
                            numbers@.contains(d) == (nums0.contains(d) || exists|k: int|
                                0 <= k < i + 1 && (#[trigger] s[k]).kind.op
                                    == Op::CallInternal(d)) by {
                            assert(nums.contains(d) == (nums0.contains(d) || exists|k: int|
                                0 <= k < i && (#[trigger] s[k]).kind.op == Op::CallInternal(d)));
                            assert(numbers@[nums.len() as int] == *c);
                            if nums.contains(d) {
                                assert(numbers@[nums.index_of(d)] == d);
                            }
                            if numbers@.contains(d) && d != *c {
                                assert(nums[numbers@.index_of(d)] == d);
                            }
                        }
                    }
                },
                FuncRef::External(name) => {
                    names.push(text(name.as_str()));
                    proof {
                        assert(s[i as int].kind.op == Op::CallExternal(name@));
                        assert forall|n: Seq<char>| #[trigger]
                            has_name(names@, n) == (has_name(names0, n) || exists|k: int|
                                0 <= k < i + 1 && (#[trigger] s[k]).kind.op
                                    == Op::CallExternal(n)) by {
                            assert(has_name(texts, n) == (has_name(names0, n) || exists|k: int|
                                0 <= k < i && (#[trigger] s[k]).kind.op == Op::CallExternal(n)));
                            assert(names@[texts.len() as int]@ == name@);
                            if has_name(texts, n) {
                                let k = choose|k: int|
                                    0 <= k < texts.len() && (#[trigger] texts[k])@ == n;
                                assert(names@[k]@ == n);
                            }
                            if has_name(names@, n) && n != name@ {
                                let k = choose|k: int|
                                    0 <= k < names@.len() && (#[trigger] names@[k])@ == n;
                                assert(texts[k]@ == n);
                            }
                        }
                    }
                },
                FuncRef::Indirect(_) => {},
            },
            _ => {},
        }
        i = i + 1;
    }
    proof {
        assert forall|c: u32| #[trigger]
            numbers@.contains(c) == (nums0.contains(c) || calls_internal(func@, c as int)) by {
            if calls_internal(func@, c as int) {
                let k = choose|k: int|
                    0 <= k < s.len() && ((#[trigger] s[k]).kind.op matches Op::CallInternal(d) && d
                        == c);
                assert(s[k].kind.op == Op::CallInternal(c));
            }
            if exists|k: int| 0 <= k < i && (#[trigger] s[k]).kind.op == Op::CallInternal(c) {
                let k = choose|k: int| 0 <= k < i && (#[trigger] s[k]).kind.op == Op::CallInternal(c);
                assert(insts_of(func@)[k].kind.op matches Op::CallInternal(d) && d == c);
            }
        }
    }
}

/// Does a list hold a name?
pub open spec fn has_name(list: Seq<String>, n: Seq<char>) -> bool {
    exists|k: int| 0 <= k < list.len() && (#[trigger] list[k])@ == n
}

fn holds_name(list: &Vec<String>, name: &str) -> (r: bool)
    ensures
        r == has_name(list@, name@),
{
    let mut i: usize = 0;
    while i < list.len()
        invariant
            i <= list@.len(),
            forall|k: int| 0 <= k < i ==> (#[trigger] list@[k])@ != name@,
        decreases list@.len() - i,
    {
        if same_text(list[i].as_str(), name) {
            return true;
        }
        i = i + 1;
    }
    false
}

fn holds_number(list: &Vec<u32>, c: u32) -> (r: bool)
    ensures
        r == list@.contains(c),
{
    let mut i: usize = 0;
    while i < list.len()
        invariant
            i <= list@.len(),
            forall|k: int| 0 <= k < i ==> #[trigger] list@[k] != c,
        decreases list@.len() - i,
    {
        if list[i] == c {
            return true;
        }
        i = i + 1;
    }
    false
}

/// Which functions are kept.
fn keep_functions(module: &Module) -> (r: Vec<bool>)
    requires
        module@.functions.len() <= u32::MAX,
    ensures
        r@ == kept_mask(module@),
{
    let ghost m = module@;
    let mut numbers: Vec<u32> = Vec::new();
    let mut names: Vec<String> = Vec::new();
    let mut a: usize = 0;
    while a < module.functions.len()
        invariant
            a <= module.functions@.len(),
            m == module@,
            forall|c: u32| #[trigger]
                numbers@.contains(c) == (exists|x: int|
                    0 <= x < a && calls_internal(#[trigger] m.functions[x], c as int)),
            forall|n: Seq<char>| #[trigger]
                has_name(names@, n) == (exists|x: int|
                    0 <= x < a && calls_name(#[trigger] m.functions[x], n)),
        decreases module.functions@.len() - a,
    {
        let ghost nums = numbers@;
        let ghost texts = names@;
        proof {
            assert(m.functions[a as int] == module.functions@[a as int]@);
        }
        collect_calls(&module.functions[a], &mut numbers, &mut names);
        proof {
            assert forall|c: u32| #[trigger]
                numbers@.contains(c) == (exists|x: int|
                    0 <= x < a + 1 && calls_internal(#[trigger] m.functions[x], c as int)) by {
                assert(nums.contains(c) == (exists|x: int|
                    0 <= x < a && calls_internal(#[trigger] m.functions[x], c as int)));
                if calls_internal(m.functions[a as int], c as int) {
                    assert(numbers@.contains(c));
                }
            }
            assert forall|n: Seq<char>| #[trigger]
                has_name(names@, n) == (exists|x: int|
                    0 <= x < a + 1 && calls_name(#[trigger] m.functions[x], n)) by {
                assert(has_name(texts, n) == (exists|x: int|
                    0 <= x < a && calls_name(#[trigger] m.functions[x], n)));
                if calls_name(m.functions[a as int], n) {
                    assert(has_name(names@, n));
                }
            }
        }
        a = a + 1;
    }
    let mut keep: Vec<bool> = Vec::new();
    let mut i: usize = 0;
    while i < module.functions.len()
        invariant
            i <= module.functions@.len(),
            module.functions@.len() <= u32::MAX,
            m == module@,
            forall|c: u32| #[trigger] numbers@.contains(c) == is_called(m, c as int),
            forall|n: Seq<char>| #[trigger] has_name(names@, n) == is_called_by_name(m, n),
            keep@ == kept_mask(m).take(i as int),
        decreases module.functions@.len() - i,
    {
        let stay = i == 0 || holds_number(&numbers, i as u32) || holds_name(
            &names,
            module.functions[i].name.as_str(),
        );
        keep.push(stay);
        proof {
            assert(m.functions[i as int] == module.functions@[i as int]@);
            assert(keep@ =~= kept_mask(m).take(i + 1));
        }
        i = i + 1;
    }
    proof {
        assert(keep@ =~= kept_mask(m));
    }
    keep
}

/// The new number of each function.
fn new_numbers(keep: &Vec<bool>) -> (r: Vec<u32>)
    requires
        keep@.len() <= u32::MAX,
    ensures
        r@.len() == keep@.len(),
        forall|i: int| 0 <= i < r@.len() ==> #[trigger] r@[i] == kept_below(keep@, i as nat),
{
    let mut out: Vec<u32> = Vec::new();
    let mut next: u32 = 0;
    let mut i: usize = 0;
    while i < keep.len()
        invariant
            i <= keep@.len(),
            keep@.len() <= u32::MAX,
            next <= i,
            next == kept_below(keep@, i as nat),
            out@.len() == i,
            forall|k: int| 0 <= k < i ==> #[trigger] out@[k] == kept_below(keep@, k as nat),
        decreases keep@.len() - i,
    {
        out.push(next);
        if keep[i] {
            next = next + 1;
        }
        i = i + 1;
    }
    out
}

fn renumber_kind(kind: &mut InstKind, keep: &Vec<bool>, numbers: &Vec<u32>)
    requires
        numbers@.len() == keep@.len(),
        forall|i: int| 0 <= i < numbers@.len() ==> #[trigger] numbers@[i] == kept_below(keep@, i as nat),
    ensures
        final(kind)@ == (KindView {
            op: renumbered_op(keep@, old(kind)@.op),
            args: old(kind)@.args,
        }),
{
    match kind {
        InstKind::Call(callee, _) => match callee {
            FuncRef::Internal(c) => {
                let at: usize = *c as usize;
                if at < keep.len() && keep[at] {
                    *c = numbers[at];
                }
            },
            FuncRef::External(_) => {},
            FuncRef::Indirect(_) => {},
        },
        _ => {},
    }
}

fn renumber_function(func: &mut Function, keep: &Vec<bool>, numbers: &Vec<u32>)
    requires
        numbers@.len() == keep@.len(),
        forall|i: int| 0 <= i < numbers@.len() ==> #[trigger] numbers@[i] == kept_below(keep@, i as nat),
    ensures
        final(func)@ == renumbered_func(keep@, old(func)@),
{
    let ghost f = func@;
    let mut b: usize = 0;
    while b < func.blocks.len()
        invariant
            b <= f.blocks.len(),
            func.blocks@.len() == f.blocks.len(),
            func@ == (FuncView { blocks: func@.blocks, ..f }),
            numbers@.len() == keep@.len(),
            forall|i: int|
                0 <= i < numbers@.len() ==> #[trigger] numbers@[i] == kept_below(keep@, i as nat),
            forall|k: int|
                0 <= k < b ==> (#[trigger] func.blocks@[k])@ == renumbered_block(keep@, f.blocks[k]),
            forall|k: int| b <= k < f.blocks.len() ==> (#[trigger] func.blocks@[k])@ == f.blocks[k],
        decreases f.blocks.len() - b,
    {
        proof {
            assert(func.blocks@[b as int]@ == f.blocks[b as int]);
        }
        renumber_block(&mut func.blocks[b], keep, numbers);
        b = b + 1;
    }
    proof {
        assert(func@.blocks =~= renumbered_func(keep@, f).blocks);
    }
}

fn renumber_block(block: &mut BasicBlock, keep: &Vec<bool>, numbers: &Vec<u32>)
    requires
        numbers@.len() == keep@.len(),
        forall|i: int| 0 <= i < numbers@.len() ==> #[trigger] numbers@[i] == kept_below(keep@, i as nat),
    ensures
        final(block)@ == renumbered_block(keep@, old(block)@),
{
    let ghost b = block@;
    let mut k: usize = 0;
    while k < block.insts.len()
        invariant
            k <= b.insts.len(),
            block.insts@.len() == b.insts.len(),
            block@ == (BlockView { insts: block@.insts, ..b }),
            numbers@.len() == keep@.len(),
            forall|i: int|
                0 <= i < numbers@.len() ==> #[trigger] numbers@[i] == kept_below(keep@, i as nat),
            forall|j: int|
                0 <= j < k ==> (#[trigger] block.insts@[j])@ == renumbered_inst(keep@, b.insts[j]),
            forall|j: int| k <= j < b.insts.len() ==> (#[trigger] block.insts@[j])@ == b.insts[j],
        decreases b.insts.len() - k,
    {
        proof {
            assert(block.insts@[k as int]@ == b.insts[k as int]);
        }
        renumber_kind(&mut block.insts[k].kind, keep, numbers);
        k = k + 1;
    }
    proof {
        assert(block@.insts =~= renumbered_block(keep@, b).insts);
    }
}

fn all_kept(keep: &Vec<bool>) -> (r: bool)
    ensures
        r == forall|i: int| 0 <= i < keep@.len() ==> #[trigger] keep@[i],
{
    let mut i: usize = 0;
    while i < keep.len()
        invariant
            i <= keep@.len(),
            forall|k: int| 0 <= k < i ==> #[trigger] keep@[k],
        decreases keep@.len() - i,
    {
        if !keep[i] {
            return false;
        }
        i = i + 1;
    }
    true
}

/// The dead-function elimination pass.
pub struct DeadFuncElim;

impl Pass for DeadFuncElim {
    open spec fn accepts(&self, m: ModuleView) -> bool {
        m.functions.len() <= u32::MAX
    }

    open spec fn outcome(&self, before: ModuleView, after: ModuleView, changed: bool) -> bool {
        after == live_functions(before) && changed == has_dead_func(before)
    }

    fn name(&self) -> (r: &'static str)
        ensures
            r@ == "dead-func-elim"@,
    {
        "dead-func-elim"
    }

    fn run(&self, module: &mut Module) -> (changed: bool) {
        let ghost m = module@;
        if module.functions.len() <= 1 {
            return false;
        }
        let keep = keep_functions(module);
        if all_kept(&keep) {
            return false;
        }
        let numbers = new_numbers(&keep);
        let ghost before = module.functions@;
        retain_mask(&mut module.functions, &keep);
        let ghost kept = masked(m.functions, keep@);
        proof {
            lemma_masked_map(before, m.functions, keep@, |f: Function| f@);
            let dead = choose|i: int| 0 <= i < keep@.len() && !#[trigger] keep@[i];
            assert(!kept_mask(m)[dead]);
        }
        let mut i: usize = 0;
        while i < module.functions.len()
            invariant
                i <= kept.len(),
                keep@ == kept_mask(m),
                numbers@.len() == keep@.len(),
                forall|i: int|
                    0 <= i < numbers@.len() ==> #[trigger] numbers@[i] == kept_below(
                        keep@,
                        i as nat,
                    ),
                module.functions@.len() == kept.len(),
                module@ == (ModuleView { functions: module@.functions, ..m }),
                forall|k: int|
                    0 <= k < i ==> (#[trigger] module.functions@[k])@ == renumbered_func(
                        keep@,
                        kept[k],
                    ),
                forall|k: int| i <= k < kept.len() ==> (#[trigger] module.functions@[k])@ == kept[k],
            decreases kept.len() - i,
        {
            proof {
                assert(module.functions@[i as int]@ == kept[i as int]);
            }
            renumber_function(&mut module.functions[i], &keep, &numbers);
            i = i + 1;
        }
        proof {
            assert(module@.functions =~= kept_functions(m));
        }
        true
    }
}

} // verus!
