//! What it means that the verifier finds nothing.

use crate::ir::cfg::targets_of;
use crate::ir::dom::dominates;
use crate::ir::inst::{
    defs, has_block, is_first_block, last_def, the_block, BlockView, FuncView, ModuleView, ValueId,
};
use crate::ir::types::type_fits;
use crate::ir::verify::{
    block_type_msgs, branch_msgs, consistency_msgs, dangling_msgs, defined_before, dominance_msgs,
    entry_edge_msgs, function_msgs, gather, global_msgs, has_duplicate_blocks, inst_type_msgs,
    insts_dominance, is_defined, last_inst_pos, lemma_gather_empty, module_msgs,
    named_function_msgs, named_msgs, only_if, redefinition_msgs, return_msgs, stale_msgs,
    structure_msgs, target_msgs, terminator_msgs, undefined_in_insts, undefined_msgs, use_msgs,
    uses_dominance,
};
use crate::ir::walk::term_uses;
use vstd::prelude::*;

verus! {

/// Is every one of these values defined?
pub open spec fn all_defined(f: FuncView, uses: Seq<ValueId>) -> bool {
    forall|k: int| 0 <= k < uses.len() ==> is_defined(f, #[trigger] uses[k])
}

/// Is `v` defined before place `at` of block `b` on every way there?
pub open spec fn defined_on_the_way(f: FuncView, b: BlockView, v: ValueId, at: int) -> bool {
    match last_def(defs(f), v) {
        Some(d) => if d.block == b.id {
            match last_inst_pos(b.insts, b.insts.len(), v) {
                Some(p) => p < at,
                None => true,
            }
        } else {
            dominates(f, d.block, b.id)
        },
        None => true,
    }
}

/// Is every one of these values defined before place `at` of block `b` on every
/// way there?
pub open spec fn all_on_the_way(f: FuncView, b: BlockView, uses: Seq<ValueId>, at: int) -> bool {
    forall|k: int| 0 <= k < uses.len() ==> defined_on_the_way(f, b, #[trigger] uses[k], at)
}

/// Is a block sound: does it end, branch to blocks other than the entry, and
/// read only values that are defined on every way there?
pub open spec fn sound_block(f: FuncView, b: BlockView) -> bool {
    &&& b.term is Some
    &&& !targets_of(b).contains(f.entry)
    &&& forall|k: int|
        0 <= k < targets_of(b).len() ==> has_block(f.blocks, #[trigger] targets_of(b)[k])
    &&& forall|j: int|
        0 <= j < b.insts.len() ==> all_defined(f, (#[trigger] b.insts[j]).kind.args)
            && all_on_the_way(f, b, b.insts[j].kind.args, j)
    &&& all_defined(f, term_uses(b.term->0))
    &&& all_on_the_way(f, b, term_uses(b.term->0), b.insts.len() as int)
}

/// Do the types in a block agree?
pub open spec fn typed_block(f: FuncView, b: BlockView) -> bool {
    &&& b.term matches Some(t) ==> branch_msgs(f, t, b.name).len() == 0 && return_msgs(
        f,
        t,
        b.name,
    ).len() == 0
    &&& forall|j: int|
        0 <= j < b.insts.len() ==> consistency_msgs(f, #[trigger] b.insts[j]).len() == 0
}

/// Is the registered type of a definition, if there is one, its type?
pub open spec fn type_agrees(f: FuncView, i: int) -> bool {
    f.type_cache.contains_key(defs(f)[i].id) ==> f.type_cache[defs(f)[i].id] == defs(f)[i].ty
}

/// Is a function in static single assignment form?
pub open spec fn sound_function(f: FuncView) -> bool {
    &&& !has_duplicate_blocks(f)
    &&& the_block(f.blocks, f.entry).params.len() == 0
    &&& forall|i: int| 0 <= i < f.blocks.len() ==> sound_block(f, #[trigger] f.blocks[i])
    &&& forall|i: int| 0 <= i < f.blocks.len() ==> typed_block(f, #[trigger] f.blocks[i])
    &&& forall|i: int| 0 <= i < defs(f).len() ==> !#[trigger] defined_before(defs(f), i)
    &&& forall|i: int| 0 <= i < defs(f).len() ==> #[trigger] type_agrees(f, i)
}

/// Is a module sound: are its functions, and have its globals a size?
pub open spec fn sound_module(m: ModuleView) -> bool {
    &&& forall|i: int| 0 <= i < m.globals.len() ==> type_fits((#[trigger] m.globals[i]).ty, m.layout)
    &&& forall|i: int| 0 <= i < m.functions.len() ==> sound_function(#[trigger] m.functions[i])
}

proof fn lemma_structure(f: FuncView)
    ensures
        (gather(f.blocks.len(), structure_msgs(f)).len() == 0) == (!has_duplicate_blocks(f)
            && forall|i: int| 0 <= i < f.blocks.len() ==> (#[trigger] f.blocks[i]).term is Some),
{
    let each = structure_msgs(f);
    lemma_gather_empty(f.blocks.len(), each);
    assert forall|i: int| 0 <= i < f.blocks.len() implies ((#[trigger] each(i)).len() == 0) == (
    is_first_block(f.blocks, f.blocks[i].id, i) && f.blocks[i].term is Some) by {}
    if forall|i: int| 0 <= i < f.blocks.len() ==> (#[trigger] each(i)).len() == 0 {
        assert forall|i: int| 0 <= i < f.blocks.len() implies (#[trigger] f.blocks[i]).term is Some by {
            assert(each(i).len() == 0);
        }
        assert forall|i: int| 0 <= i < f.blocks.len() implies is_first_block(
            f.blocks,
            (#[trigger] f.blocks[i]).id,
            i,
        ) by {
            assert(each(i).len() == 0);
        }
    }
    if !has_duplicate_blocks(f) && forall|i: int|
        0 <= i < f.blocks.len() ==> (#[trigger] f.blocks[i]).term is Some {
        assert forall|i: int| 0 <= i < f.blocks.len() implies (#[trigger] each(i)).len() == 0 by {
            assert(f.blocks[i].term is Some);
        }
    }
}

proof fn lemma_undefined(f: FuncView, uses: Seq<ValueId>, place: Seq<char>, name: Seq<char>)
    ensures
        (gather(uses.len(), undefined_msgs(f, uses, place, name)).len() == 0) == all_defined(
            f,
            uses,
        ),
{
    let each = undefined_msgs(f, uses, place, name);
    lemma_gather_empty(uses.len(), each);
    assert forall|k: int| 0 <= k < uses.len() implies ((#[trigger] each(k)).len() == 0)
        == is_defined(f, uses[k]) by {}
    if forall|k: int| 0 <= k < uses.len() ==> (#[trigger] each(k)).len() == 0 {
        assert forall|k: int| 0 <= k < uses.len() implies is_defined(f, #[trigger] uses[k]) by {
            assert(each(k).len() == 0);
        }
    }
}

/// Are the values that a block reads defined?
pub open spec fn block_uses_defined(f: FuncView, b: BlockView) -> bool {
    &&& forall|j: int|
        0 <= j < b.insts.len() ==> all_defined(f, (#[trigger] b.insts[j]).kind.args)
    &&& b.term matches Some(t) ==> all_defined(f, term_uses(t))
}

proof fn lemma_block_uses(f: FuncView, i: int)
    requires
        0 <= i < f.blocks.len(),
    ensures
        (use_msgs(f)(i).len() == 0) == block_uses_defined(f, f.blocks[i]),
{
    let b = f.blocks[i];
    let each = undefined_in_insts(f, b);
    lemma_gather_empty(b.insts.len(), each);
    assert forall|j: int| 0 <= j < b.insts.len() implies ((#[trigger] each(j)).len() == 0)
        == all_defined(f, b.insts[j].kind.args) by {
        lemma_undefined(f, b.insts[j].kind.args, " used in block '"@, b.name);
    }
    if forall|j: int| 0 <= j < b.insts.len() ==> (#[trigger] each(j)).len() == 0 {
        assert forall|j: int| 0 <= j < b.insts.len() implies all_defined(
            f,
            (#[trigger] b.insts[j]).kind.args,
        ) by {
            assert(each(j).len() == 0);
        }
    }
    if let Some(t) = b.term {
        lemma_undefined(f, term_uses(t), " used in terminator of block '"@, b.name);
    }
}

proof fn lemma_dominance(f: FuncView, b: BlockView, uses: Seq<ValueId>, at: int)
    ensures
        (gather(uses.len(), uses_dominance(f, b, uses, at)).len() == 0) == all_on_the_way(
            f,
            b,
            uses,
            at,
        ),
{
    let each = uses_dominance(f, b, uses, at);
    lemma_gather_empty(uses.len(), each);
    assert forall|k: int| 0 <= k < uses.len() implies ((#[trigger] each(k)).len() == 0)
        == defined_on_the_way(f, b, uses[k], at) by {}
    if forall|k: int| 0 <= k < uses.len() ==> (#[trigger] each(k)).len() == 0 {
        assert forall|k: int| 0 <= k < uses.len() implies defined_on_the_way(
            f,
            b,
            #[trigger] uses[k],
            at,
        ) by {
            assert(each(k).len() == 0);
        }
    }
}

/// Are the values that a block reads defined on every way there?
pub open spec fn block_uses_on_the_way(f: FuncView, b: BlockView) -> bool {
    &&& forall|j: int|
        0 <= j < b.insts.len() ==> all_on_the_way(f, b, (#[trigger] b.insts[j]).kind.args, j)
    &&& b.term matches Some(t) ==> all_on_the_way(f, b, term_uses(t), b.insts.len() as int)
}

proof fn lemma_block_dominance(f: FuncView, i: int)
    requires
        0 <= i < f.blocks.len(),
    ensures
        (dominance_msgs(f)(i).len() == 0) == block_uses_on_the_way(f, f.blocks[i]),
{
    let b = f.blocks[i];
    let each = insts_dominance(f, b);
    lemma_gather_empty(b.insts.len(), each);
    assert forall|j: int| 0 <= j < b.insts.len() implies ((#[trigger] each(j)).len() == 0)
        == all_on_the_way(f, b, b.insts[j].kind.args, j) by {
        lemma_dominance(f, b, b.insts[j].kind.args, j);
    }
    if forall|j: int| 0 <= j < b.insts.len() ==> (#[trigger] each(j)).len() == 0 {
        assert forall|j: int| 0 <= j < b.insts.len() implies all_on_the_way(
            f,
            b,
            (#[trigger] b.insts[j]).kind.args,
            j,
        ) by {
            assert(each(j).len() == 0);
        }
    }
    if let Some(t) = b.term {
        lemma_dominance(f, b, term_uses(t), b.insts.len() as int);
    }
}

proof fn lemma_targets(f: FuncView, i: int)
    requires
        0 <= i < f.blocks.len(),
    ensures
        (target_msgs(f)(i).len() == 0) == (forall|k: int|
            0 <= k < targets_of(f.blocks[i]).len() ==> has_block(
                f.blocks,
                #[trigger] targets_of(f.blocks[i])[k],
            )),
{
    let ts = targets_of(f.blocks[i]);
    let each = dangling_msgs(f, f.blocks[i].name, ts);
    lemma_gather_empty(ts.len(), each);
    assert forall|k: int| 0 <= k < ts.len() implies ((#[trigger] each(k)).len() == 0) == has_block(
        f.blocks,
        ts[k],
    ) by {}
    if forall|k: int| 0 <= k < ts.len() ==> (#[trigger] each(k)).len() == 0 {
        assert forall|k: int| 0 <= k < ts.len() implies has_block(f.blocks, #[trigger] ts[k]) by {
            assert(each(k).len() == 0);
        }
    }
}

proof fn lemma_types(f: FuncView, i: int)
    requires
        0 <= i < f.blocks.len(),
    ensures
        (terminator_msgs(f)(i).len() == 0 && block_type_msgs(f)(i).len() == 0) == typed_block(
            f,
            f.blocks[i],
        ),
{
    let b = f.blocks[i];
    let each = inst_type_msgs(f, b);
    lemma_gather_empty(b.insts.len(), each);
    if forall|j: int| 0 <= j < b.insts.len() ==> (#[trigger] each(j)).len() == 0 {
        assert forall|j: int| 0 <= j < b.insts.len() implies consistency_msgs(
            f,
            #[trigger] b.insts[j],
        ).len() == 0 by {
            assert(each(j).len() == 0);
        }
    }
    if forall|j: int| 0 <= j < b.insts.len() ==> consistency_msgs(f, #[trigger] b.insts[j]).len() == 0 {
        assert forall|j: int| 0 <= j < b.insts.len() implies (#[trigger] each(j)).len() == 0 by {
            assert(consistency_msgs(f, b.insts[j]).len() == 0);
        }
    }
}

proof fn lemma_definitions(f: FuncView)
    ensures
        (gather(defs(f).len(), stale_msgs(f)).len() == 0) == (forall|i: int|
            0 <= i < defs(f).len() ==> #[trigger] type_agrees(f, i)),
        (gather(defs(f).len(), redefinition_msgs(f)).len() == 0) == (forall|i: int|
            0 <= i < defs(f).len() ==> !#[trigger] defined_before(defs(f), i)),
{
    let n = defs(f).len();
    let stale = stale_msgs(f);
    let again = redefinition_msgs(f);
    lemma_gather_empty(n, stale);
    lemma_gather_empty(n, again);
    assert forall|i: int| 0 <= i < n implies ((#[trigger] stale(i)).len() == 0) == type_agrees(f, i) by {}
    assert forall|i: int| 0 <= i < n implies ((#[trigger] again(i)).len() == 0) == !defined_before(
        defs(f),
        i,
    ) by {}
    if forall|i: int| 0 <= i < n ==> (#[trigger] stale(i)).len() == 0 {
        assert forall|i: int| 0 <= i < n implies #[trigger] type_agrees(f, i) by {
            assert(stale(i).len() == 0);
        }
    }
    if forall|i: int| 0 <= i < n ==> (#[trigger] again(i)).len() == 0 {
        assert forall|i: int| 0 <= i < n implies !#[trigger] defined_before(defs(f), i) by {
            assert(again(i).len() == 0);
        }
    }
}

/// Does every block pass every check but that of its identity?
spec fn blocks_pass(f: FuncView) -> bool {
    forall|i: int|
        0 <= i < f.blocks.len() ==> block_passes(f, #[trigger] f.blocks[i], i)
}

spec fn block_passes(f: FuncView, b: BlockView, i: int) -> bool {
    &&& b.term is Some
    &&& entry_edge_msgs(f)(i).len() == 0
    &&& use_msgs(f)(i).len() == 0
    &&& terminator_msgs(f)(i).len() == 0
    &&& block_type_msgs(f)(i).len() == 0
    &&& target_msgs(f)(i).len() == 0
    &&& dominance_msgs(f)(i).len() == 0
}

proof fn lemma_block_sound(f: FuncView, i: int)
    requires
        0 <= i < f.blocks.len(),
    ensures
        block_passes(f, f.blocks[i], i) == (sound_block(f, f.blocks[i]) && typed_block(
            f,
            f.blocks[i],
        )),
{
    let b = f.blocks[i];
    lemma_block_uses(f, i);
    lemma_block_dominance(f, i);
    lemma_targets(f, i);
    lemma_types(f, i);
    assert((entry_edge_msgs(f)(i).len() == 0) == !targets_of(b).contains(f.entry));
    if sound_block(f, b) {
        assert(block_uses_defined(f, b));
        assert(block_uses_on_the_way(f, b));
    }
}

proof fn lemma_blocks_pass(f: FuncView)
    ensures
        (gather(f.blocks.len(), entry_edge_msgs(f)).len() == 0 && gather(
            f.blocks.len(),
            use_msgs(f),
        ).len() == 0 && gather(f.blocks.len(), terminator_msgs(f)).len() == 0 && gather(
            f.blocks.len(),
            block_type_msgs(f),
        ).len() == 0 && gather(f.blocks.len(), target_msgs(f)).len() == 0 && gather(
            f.blocks.len(),
            dominance_msgs(f),
        ).len() == 0 && forall|i: int|
            0 <= i < f.blocks.len() ==> (#[trigger] f.blocks[i]).term is Some) == blocks_pass(f),
{
    let n = f.blocks.len();
    let a = entry_edge_msgs(f);
    let b = use_msgs(f);
    let c = terminator_msgs(f);
    let d = block_type_msgs(f);
    let e = target_msgs(f);
    let g = dominance_msgs(f);
    lemma_gather_empty(n, a);
    lemma_gather_empty(n, b);
    lemma_gather_empty(n, c);
    lemma_gather_empty(n, d);
    lemma_gather_empty(n, e);
    lemma_gather_empty(n, g);
    if blocks_pass(f) {
        assert forall|i: int| 0 <= i < n implies (#[trigger] a(i)).len() == 0 by {
            assert(block_passes(f, f.blocks[i], i));
        }
        assert forall|i: int| 0 <= i < n implies (#[trigger] b(i)).len() == 0 by {
            assert(block_passes(f, f.blocks[i], i));
        }
        assert forall|i: int| 0 <= i < n implies (#[trigger] c(i)).len() == 0 by {
            assert(block_passes(f, f.blocks[i], i));
        }
        assert forall|i: int| 0 <= i < n implies (#[trigger] d(i)).len() == 0 by {
            assert(block_passes(f, f.blocks[i], i));
        }
        assert forall|i: int| 0 <= i < n implies (#[trigger] e(i)).len() == 0 by {
            assert(block_passes(f, f.blocks[i], i));
        }
        assert forall|i: int| 0 <= i < n implies (#[trigger] g(i)).len() == 0 by {
            assert(block_passes(f, f.blocks[i], i));
        }
    } else {
        let i = choose|i: int| 0 <= i < n && !block_passes(f, #[trigger] f.blocks[i], i);
        assert(!block_passes(f, f.blocks[i], i));
        assert(a(i).len() > 0 || b(i).len() > 0 || c(i).len() > 0 || d(i).len() > 0 || e(i).len() > 0
            || g(i).len() > 0 || f.blocks[i].term is None);
    }
}

/// The verifier finds nothing in a function exactly where it is sound.
pub proof fn no_findings_means_sound(f: FuncView)
    ensures
        (function_msgs(f).len() == 0) == sound_function(f),
{
    lemma_structure(f);
    lemma_definitions(f);
    lemma_blocks_pass(f);
    let n = f.blocks.len();
    if !has_duplicate_blocks(f) {
        let m = only_if(
            the_block(f.blocks, f.entry).params.len() != 0,
            "entry block must not have block parameters"@,
        );
        assert(function_msgs(f).len() == gather(n, structure_msgs(f)).len() + m.len() + gather(
            n,
            entry_edge_msgs(f),
        ).len() + gather(n, use_msgs(f)).len() + gather(defs(f).len(), stale_msgs(f)).len() + gather(
            defs(f).len(),
            redefinition_msgs(f),
        ).len() + gather(n, terminator_msgs(f)).len() + gather(n, block_type_msgs(f)).len() + gather(
            n,
            target_msgs(f),
        ).len() + gather(n, dominance_msgs(f)).len());
        assert(blocks_pass(f) == ((forall|i: int|
            0 <= i < n ==> sound_block(f, #[trigger] f.blocks[i])) && (forall|i: int|
            0 <= i < n ==> typed_block(f, #[trigger] f.blocks[i])))) by {
            assert forall|i: int| 0 <= i < n implies block_passes(f, #[trigger] f.blocks[i], i) == (
            sound_block(f, f.blocks[i]) && typed_block(f, f.blocks[i])) by {
                lemma_block_sound(f, i);
            }
        }
    }
}

/// The verifier finds nothing in a module exactly where it is sound.
pub proof fn no_findings_means_sound_module(m: ModuleView)
    ensures
        (module_msgs(m).len() == 0) == sound_module(m),
{
    let globals = global_msgs(m);
    let functions = named_function_msgs(m);
    lemma_gather_empty(m.globals.len(), globals);
    lemma_gather_empty(m.functions.len(), functions);
    assert forall|i: int| 0 <= i < m.globals.len() implies ((#[trigger] globals(i)).len() == 0)
        == type_fits(m.globals[i].ty, m.layout) by {}
    assert forall|i: int| 0 <= i < m.functions.len() implies ((#[trigger] functions(i)).len() == 0)
        == sound_function(m.functions[i]) by {
        no_findings_means_sound(m.functions[i]);
        assert(functions(i) == named_msgs(m.functions[i]));
    }
    if module_msgs(m).len() == 0 {
        assert forall|i: int| 0 <= i < m.globals.len() implies type_fits(
            (#[trigger] m.globals[i]).ty,
            m.layout,
        ) by {
            assert(globals(i).len() == 0);
        }
        assert forall|i: int| 0 <= i < m.functions.len() implies sound_function(
            #[trigger] m.functions[i],
        ) by {
            assert(functions(i).len() == 0);
        }
    }
    if sound_module(m) {
        assert forall|i: int| 0 <= i < m.globals.len() implies (#[trigger] globals(i)).len() == 0 by {
            assert(type_fits(m.globals[i].ty, m.layout));
        }
        assert forall|i: int| 0 <= i < m.functions.len() implies (#[trigger] functions(i)).len()
            == 0 by {
            assert(sound_function(m.functions[i]));
        }
    }
}

} // verus!
