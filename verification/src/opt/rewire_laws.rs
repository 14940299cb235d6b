//! Functions stay sound where other values are read, and where constants are put
//! in front of all instructions.

use crate::ir::cfg::{reachable, targets_of};
use crate::ir::dom::lemma_dominates_self;
use crate::ir::inst::{
    block_param_defs, block_pos, defs, defs_upto, has_block, inst_defs, is_first_block, last_def,
    lemma_block_pos, lemma_last_def, param_defs, type_of, BlockId, BlockView, Def, FuncView,
    InstView, ValueId,
};
use crate::ir::keep::{
    all_operands, has_operands, lemma_same_consistency, lemma_same_dominance, lemma_same_place,
    same_graph, value_names_used,
};
use crate::ir::sound::{
    all_defined, all_on_the_way, defined_on_the_way, sound_block, sound_function, type_agrees,
    typed_block,
};
use crate::ir::types::IrType;
use crate::ir::verify::{
    consistency_msgs, defined_before, has_duplicate_blocks, is_defined, last_inst_pos,
};
use crate::ir::walk::{
    lemma_renamed_uses, renamed, renamed_func, renamed_list, renamed_term, term_targets, term_uses,
};
use crate::lists::{lemma_masked_filter, masked};
use crate::opt::clean_laws::{lemma_def_place, lemma_last_pos};
use crate::opt::const_arg::{const_types, with_consts};
use crate::opt::dce::{block_reads, reads};
use crate::opt::edit::func_without;
use crate::opt::insts::insts_upto;
use crate::opt::prune_laws::{
    agree_on, lemma_in_concat, lemma_left_term, lemma_sound_unique, lemma_unique_def, own_defs,
    same_target, unique,
};
use crate::opt::share_laws::{lemma_like_consistency, lemma_like_term};
use crate::opt::sound_laws::{lemma_same_inst_pos, lemma_unread_dropped};
use vstd::prelude::*;

verus! {

/// Is `v` defined before place `at` of block `i` on every way there?
pub open spec fn at_hand(f: FuncView, i: int, v: ValueId, at: int) -> bool {
    is_defined(f, v) && defined_on_the_way(f, f.blocks[i], v, at)
}

/// Does a block define the same, and lead to the same blocks?
pub open spec fn same_frame(a: BlockView, b: BlockView) -> bool {
    &&& b == (BlockView { insts: b.insts, term: b.term, ..a })
    &&& b.insts.len() == a.insts.len()
    &&& forall|j: int|
        0 <= j < a.insts.len() ==> (#[trigger] b.insts[j]).id == a.insts[j].id && b.insts[j].ty
            == a.insts[j].ty
    &&& targets_of(b) == targets_of(a)
}

/// Do the blocks of `g` define what those of `f` define?
pub open spec fn same_frames(f: FuncView, g: FuncView) -> bool {
    &&& g == (FuncView { blocks: g.blocks, ..f })
    &&& g.blocks.len() == f.blocks.len()
    &&& forall|i: int| 0 <= i < f.blocks.len() ==> same_frame(f.blocks[i], #[trigger] g.blocks[i])
}

proof fn lemma_frame_defs(f: FuncView, g: FuncView, n: nat)
    requires
        same_frames(f, g),
        n <= f.blocks.len(),
    ensures
        defs_upto(g.blocks, n) == defs_upto(f.blocks, n),
    decreases n,
{
    if n > 0 {
        lemma_frame_defs(f, g, (n - 1) as nat);
        let a = f.blocks[n - 1];
        let b = g.blocks[n - 1];
        assert(same_frame(a, b));
        assert(block_param_defs(b) =~= block_param_defs(a));
        assert forall|k: int| 0 <= k < a.insts.len() implies #[trigger] inst_defs(b)[k] == inst_defs(
            a,
        )[k] by {
            assert(b.insts[k].id == a.insts[k].id);
        }
        assert(inst_defs(b) =~= inst_defs(a));
    }
}

/// What is at hand, and the types, stay where the definitions stay.
pub proof fn lemma_same_frames(f: FuncView, g: FuncView)
    requires
        same_frames(f, g),
    ensures
        defs(g) == defs(f),
        same_graph(f.blocks, g.blocks),
        forall|v: ValueId| #[trigger] type_of(g, v) == type_of(f, v),
        forall|i: int, v: ValueId, at: int|
            0 <= i < f.blocks.len() ==> #[trigger] defined_on_the_way(g, g.blocks[i], v, at)
                == defined_on_the_way(f, f.blocks[i], v, at),
{
    lemma_frame_defs(f, g, f.blocks.len());
    assert forall|i: int| 0 <= i < f.blocks.len() implies (#[trigger] g.blocks[i]).id
        == f.blocks[i].id && targets_of(g.blocks[i]) == targets_of(f.blocks[i]) by {
        assert(same_frame(f.blocks[i], g.blocks[i]));
    }
    lemma_same_dominance(f, g);
    assert forall|i: int, v: ValueId, at: int|
        0 <= i < f.blocks.len() implies #[trigger] defined_on_the_way(g, g.blocks[i], v, at)
        == defined_on_the_way(f, f.blocks[i], v, at) by {
        assert(same_frame(f.blocks[i], g.blocks[i]));
        lemma_same_inst_pos(f.blocks[i].insts, g.blocks[i].insts, f.blocks[i].insts.len(), v);
    }
}

/// A function whose blocks would be sound in a function that defines the same is
/// sound.
pub proof fn lemma_rewired(f: FuncView, g: FuncView)
    requires
        has_block(f.blocks, f.entry),
        sound_function(f),
        same_frames(f, g),
        forall|i: int|
            0 <= i < f.blocks.len() ==> sound_block(f, #[trigger] g.blocks[i]) && typed_block(
                f,
                g.blocks[i],
            ),
    ensures
        sound_function(g),
        has_block(g.blocks, g.entry),
{
    lemma_same_frames(f, g);
    lemma_same_dominance(f, g);
    lemma_same_place(f.blocks, g.blocks, f.entry);
    lemma_block_pos(f.blocks, f.entry);
    assert(same_frame(f.blocks[block_pos(f.blocks, f.entry)], g.blocks[block_pos(f.blocks, f.entry)]));
    assert forall|i: int| 0 <= i < g.blocks.len() implies sound_block(g, #[trigger] g.blocks[i])
        && typed_block(g, g.blocks[i]) by {
        lemma_rewired_block(f, g, i);
    }
    assert forall|i: int| 0 <= i < defs(g).len() implies #[trigger] type_agrees(g, i) by {
        assert(type_agrees(f, i));
    }
    assert forall|i: int| 0 <= i < g.blocks.len() implies is_first_block(
        g.blocks,
        (#[trigger] g.blocks[i]).id,
        i,
    ) by {
        assert(is_first_block(f.blocks, f.blocks[i].id, i));
        assert forall|j: int| 0 <= j < i implies (#[trigger] g.blocks[j]).id != g.blocks[i].id by {
            assert(f.blocks[j].id != f.blocks[i].id);
        }
    }
    assert(!has_duplicate_blocks(g));
}

proof fn lemma_rewired_block(f: FuncView, g: FuncView, i: int)
    requires
        same_frames(f, g),
        0 <= i < f.blocks.len(),
        sound_block(f, g.blocks[i]),
        typed_block(f, g.blocks[i]),
    ensures
        sound_block(g, g.blocks[i]),
        typed_block(g, g.blocks[i]),
{
    let b = g.blocks[i];
    let a = f.blocks[i];
    lemma_same_frames(f, g);
    lemma_same_dominance(f, g);
    assert(same_frame(a, b));
    assert forall|v: ValueId, at: int| #[trigger] defined_on_the_way(g, b, v, at)
        == defined_on_the_way(f, b, v, at) by {
        lemma_same_inst_pos(a.insts, b.insts, a.insts.len(), v);
    }
    assert forall|k: int| 0 <= k < targets_of(b).len() implies has_block(
        g.blocks,
        #[trigger] targets_of(b)[k],
    ) by {
        lemma_same_place(f.blocks, g.blocks, targets_of(b)[k]);
    }
    assert forall|j: int| 0 <= j < b.insts.len() implies all_defined(
        g,
        (#[trigger] b.insts[j]).kind.args,
    ) && all_on_the_way(g, b, b.insts[j].kind.args, j) by {
        assert(all_defined(f, b.insts[j].kind.args));
        assert(all_on_the_way(f, b, b.insts[j].kind.args, j));
    }
    assert forall|j: int| 0 <= j < b.insts.len() implies consistency_msgs(
        g,
        #[trigger] b.insts[j],
    ).len() == 0 by {
        lemma_same_consistency(f, g, b.insts[j]);
    }
    let t = b.term->0;
    assert forall|x: BlockId| #[trigger] term_targets(t).contains(x) implies same_target(f, g, x) by {
        let k = targets_of(b).index_of(x);
        assert(has_block(f.blocks, targets_of(b)[k]));
        lemma_same_place(f.blocks, g.blocks, x);
        lemma_block_pos(f.blocks, x);
        assert(same_frame(f.blocks[block_pos(f.blocks, x)], g.blocks[block_pos(f.blocks, x)]));
    }
    assert(agree_on(f, g, term_uses(t)));
    lemma_left_term(f, g, t, b.name);
}

/// Can each renamed value be read where the value is read?
pub open spec fn can_rename(f: FuncView, m: Map<ValueId, ValueId>) -> bool {
    forall|i: int, v: ValueId, at: int|
        0 <= i < f.blocks.len() && m.contains_key(v) && block_reads(f.blocks[i], v)
            && reads_at(f.blocks[i], v, at) && #[trigger] at_hand(f, i, v, at) ==> at_hand(
            f,
            i,
            m[v],
            at,
        ) && type_of(f, m[v]) == type_of(f, v)
}

/// Does instruction `at` of a block, or its end, read `v`?
pub open spec fn reads_at(b: BlockView, v: ValueId, at: int) -> bool {
    ||| 0 <= at < b.insts.len() && b.insts[at].kind.args.contains(v)
    ||| at == b.insts.len() && (b.term matches Some(t) && term_uses(t).contains(v))
}

/// Reading other values that are at hand and of the same types keeps a function
/// sound.
pub proof fn lemma_renamed_sound(f: FuncView, m: Map<ValueId, ValueId>)
    requires
        has_block(f.blocks, f.entry),
        sound_function(f),
        all_operands(f),
        can_rename(f, m),
    ensures
        sound_function(renamed_func(f, m)),
        all_operands(renamed_func(f, m)),
        same_frames(f, renamed_func(f, m)),
{
    let g = renamed_func(f, m);
    assert forall|i: int| 0 <= i < f.blocks.len() implies same_frame(
        f.blocks[i],
        #[trigger] g.blocks[i],
    ) by {
        if let Some(t) = f.blocks[i].term {
            assert(term_targets(renamed_term(t, m)) =~= term_targets(t));
        }
    }
    assert forall|i: int| 0 <= i < f.blocks.len() implies sound_block(f, #[trigger] g.blocks[i])
        && typed_block(f, g.blocks[i]) by {
        lemma_renamed_block(f, m, i);
    }
    lemma_rewired(f, g);
    assert forall|b: int, j: int|
        0 <= b < g.blocks.len() && 0 <= j < g.blocks[b].insts.len() implies has_operands(
        #[trigger] g.blocks[b].insts[j],
    ) by {
        assert(has_operands(f.blocks[b].insts[j]));
    }
}

proof fn lemma_renamed_block(f: FuncView, m: Map<ValueId, ValueId>, i: int)
    requires
        sound_function(f),
        all_operands(f),
        can_rename(f, m),
        0 <= i < f.blocks.len(),
        same_frame(f.blocks[i], renamed_func(f, m).blocks[i]),
    ensures
        sound_block(f, renamed_func(f, m).blocks[i]),
        typed_block(f, renamed_func(f, m).blocks[i]),
{
    let a = f.blocks[i];
    let b = renamed_func(f, m).blocks[i];
    assert(sound_block(f, f.blocks[i]));
    assert(typed_block(f, f.blocks[i]));
    assert forall|v: ValueId, at: int| #[trigger] defined_on_the_way(f, b, v, at)
        == defined_on_the_way(f, a, v, at) by {
        lemma_same_inst_pos(a.insts, b.insts, a.insts.len(), v);
    }
    assert forall|j: int| 0 <= j < b.insts.len() implies all_defined(
        f,
        (#[trigger] b.insts[j]).kind.args,
    ) && all_on_the_way(f, b, b.insts[j].kind.args, j) && consistency_msgs(f, b.insts[j]).len()
        == 0 by {
        let old = a.insts[j].kind.args;
        let now = b.insts[j].kind.args;
        assert(now == renamed_list(old, m));
        assert(all_defined(f, a.insts[j].kind.args));
        assert forall|k: int| 0 <= k < now.len() implies is_defined(f, #[trigger] now[k])
            && defined_on_the_way(f, a, now[k], j) && type_of(f, now[k]) == type_of(f, old[k]) by {
            assert(is_defined(f, old[k]));
            assert(defined_on_the_way(f, a, old[k], j));
            assert(old.contains(old[k]));
            assert(at_hand(f, i, old[k], j));
            assert(block_reads(f.blocks[i], old[k]));
            assert(reads_at(f.blocks[i], old[k], j));
        }
        assert(has_operands(f.blocks[i].insts[j]));
        assert(consistency_msgs(f, a.insts[j]).len() == 0);
        lemma_like_consistency(f, f, a.insts[j], b.insts[j]);
    }
    let t = a.term->0;
    let old = term_uses(t);
    let now = term_uses(renamed_term(t, m));
    lemma_renamed_uses(t, m);
    let n = a.insts.len() as int;
    assert forall|k: int| 0 <= k < now.len() implies is_defined(f, #[trigger] now[k])
        && defined_on_the_way(f, a, now[k], n) && type_of(f, now[k]) == type_of(f, old[k]) by {
        assert(is_defined(f, old[k]));
        assert(defined_on_the_way(f, a, old[k], n));
        assert(old.contains(old[k]));
        assert(at_hand(f, i, old[k], n));
        assert(block_reads(f.blocks[i], old[k]));
        assert(reads_at(f.blocks[i], old[k], n));
    }
    assert forall|x: BlockId| #[trigger] term_targets(t).contains(x) implies same_target(f, f, x) by {
        let k = targets_of(a).index_of(x);
        assert(has_block(f.blocks, targets_of(a)[k]));
    }
    lemma_like_term(f, f, t, m, a.name);
}

/// Is an instruction a scalar constant?
pub open spec fn gives_const(i: InstView) -> bool {
    &&& i.kind.args.len() == 0
    &&& i.kind.op is ConstInt || i.kind.op is ConstFloat || i.kind.op is ConstBool
    &&& i.ty is Int || i.ty is Float || i.ty is Bool
}

/// Are these constants that take the next names of a function?
pub open spec fn next_consts(f: FuncView, consts: Seq<InstView>) -> bool {
    &&& f.next_value + consts.len() <= u32::MAX
    &&& forall|k: int|
        0 <= k < consts.len() ==> (#[trigger] consts[k]).id == ValueId((f.next_value + k) as u32)
            && gives_const(consts[k])
}

/// Can constants be put in front of a function?
pub open spec fn takes_consts(f: FuncView, consts: Seq<InstView>) -> bool {
    &&& has_block(f.blocks, f.entry)
    &&& sound_function(f)
    &&& all_operands(f)
    &&& value_names_used(f)
    &&& next_consts(f, consts)
}

/// By how much the instructions of block `i` move.
pub open spec fn moved(f: FuncView, consts: Seq<InstView>, i: int) -> int {
    if i == block_pos(f.blocks, f.entry) {
        consts.len() as int
    } else {
        0
    }
}

/// The definitions of constants.
spec fn front_defs(f: FuncView, consts: Seq<InstView>) -> Seq<Def> {
    Seq::new(consts.len(), |k: int| Def { id: consts[k].id, ty: consts[k].ty, block: f.entry })
}

proof fn lemma_front_upto(f: FuncView, consts: Seq<InstView>, n: nat)
    requires
        takes_consts(f, consts),
        n <= f.blocks.len(),
    ensures
        ({
            let g = with_consts(f, consts);
            let at = block_pos(f.blocks, f.entry);
            let a = defs_upto(f.blocks, at as nat);
            let all = defs_upto(f.blocks, n);
            &&& n <= at ==> defs_upto(g.blocks, n) == all
            &&& n > at ==> a.len() <= all.len() && all == a + all.skip(a.len() as int) && defs_upto(
                g.blocks,
                n,
            ) == a + front_defs(f, consts) + all.skip(a.len() as int)
        }),
    decreases n,
{
    let g = with_consts(f, consts);
    let at = block_pos(f.blocks, f.entry);
    let a = defs_upto(f.blocks, at as nat);
    let c = front_defs(f, consts);
    lemma_block_pos(f.blocks, f.entry);
    if n > 0 {
        lemma_front_upto(f, consts, (n - 1) as nat);
        let x = f.blocks[n - 1];
        let y = g.blocks[n - 1];
        let before = defs_upto(f.blocks, (n - 1) as nat);
        let all = defs_upto(f.blocks, n);
        if n - 1 == at {
            assert(block_param_defs(x) =~= Seq::<Def>::empty());
            assert(block_param_defs(y) =~= Seq::<Def>::empty());
            assert(inst_defs(y) =~= c + inst_defs(x));
            assert(all =~= a + inst_defs(x));
            assert(all.skip(a.len() as int) =~= inst_defs(x));
            assert(defs_upto(g.blocks, n) =~= a + c + inst_defs(x));
        } else {
            assert(y == x);
            let own = block_param_defs(x) + inst_defs(x);
            assert(all =~= before + own);
            if n > at {
                assert(all.skip(a.len() as int) =~= before.skip(a.len() as int) + own);
                assert(defs_upto(g.blocks, n) =~= a + c + before.skip(a.len() as int) + own);
                assert(defs_upto(g.blocks, n) =~= a + c + all.skip(a.len() as int));
                assert(all =~= a + all.skip(a.len() as int));
            }
        }
    }
}

/// The definitions stay, and those of the constants are added.
proof fn lemma_front_defs(f: FuncView, consts: Seq<InstView>)
    requires
        takes_consts(f, consts),
    ensures
        unique(defs(f)),
        unique(defs(with_consts(f, consts))),
        forall|d: Def| #[trigger]
            defs(with_consts(f, consts)).contains(d) == (defs(f).contains(d) || front_defs(
                f,
                consts,
            ).contains(d)),
{
    let g = with_consts(f, consts);
    let at = block_pos(f.blocks, f.entry);
    let c = front_defs(f, consts);
    let pre = param_defs(f.params, f.entry);
    let a = defs_upto(f.blocks, at as nat);
    lemma_block_pos(f.blocks, f.entry);
    lemma_front_upto(f, consts, f.blocks.len());
    lemma_sound_unique(f);
    let rest = defs_upto(f.blocks, f.blocks.len()).skip(a.len() as int);
    let x = pre + a;
    assert(defs(f) =~= x + rest);
    assert(defs(g) =~= x + c + rest);
    assert forall|d: Def| #[trigger] defs(g).contains(d) == (defs(f).contains(d) || c.contains(d)) by {
        lemma_in_concat(x, rest, d);
        lemma_in_concat(x + c, rest, d);
        lemma_in_concat(x, c, d);
    }
    let all = defs(g);
    assert forall|i: int, j: int| 0 <= i < j < all.len() implies (#[trigger] all[i]).id != (
    #[trigger] all[j]).id by {
        let lx = x.len() as int;
        let lc = c.len() as int;
        if lx <= i < lx + lc {
            assert(all[i] == c[i - lx]);
            if j < lx + lc {
                assert(all[j] == c[j - lx]);
            } else {
                assert(all[j] == defs(f)[j - lc]);
                assert(defs(f)[j - lc].id.0 < f.next_value);
            }
        } else {
            let u = if i < lx {
                i
            } else {
                i - lc
            };
            assert(all[i] == defs(f)[u]);
            if lx <= j < lx + lc {
                assert(all[j] == c[j - lx]);
                assert(defs(f)[u].id.0 < f.next_value);
            } else {
                let w = if j < lx {
                    j
                } else {
                    j - lc
                };
                assert(all[j] == defs(f)[w]);
            }
        }
    }
}

proof fn lemma_const_types(consts: Seq<InstView>, n: nat, types: Map<ValueId, IrType>, from: u32, v: ValueId)
    requires
        n <= consts.len(),
        from + consts.len() <= u32::MAX,
        forall|k: int|
            0 <= k < consts.len() ==> (#[trigger] consts[k]).id == ValueId((from + k) as u32),
    ensures
        v.0 < from ==> const_types(consts, n, types).contains_key(v) == types.contains_key(v) && (
        types.contains_key(v) ==> const_types(consts, n, types)[v] == types[v]),
        forall|k: int|
            0 <= k < n && (#[trigger] consts[k]).id == v ==> const_types(
                consts,
                n,
                types,
            ).contains_key(v) && const_types(consts, n, types)[v] == consts[k].ty,
    decreases n,
{
    if n > 0 {
        lemma_const_types(consts, (n - 1) as nat, types, from, v);
        assert(consts[n - 1].id == ValueId((from + (n - 1)) as u32));
        assert forall|k: int| 0 <= k < n && (#[trigger] consts[k]).id == v implies const_types(
            consts,
            n,
            types,
        ).contains_key(v) && const_types(consts, n, types)[v] == consts[k].ty by {
            if k < n - 1 {
                assert(consts[k].id == ValueId((from + k) as u32));
            }
        }
    }
}

/// A value keeps its definition and its type.
proof fn lemma_front_value(f: FuncView, consts: Seq<InstView>, d: Def)
    requires
        takes_consts(f, consts),
        defs(f).contains(d),
    ensures
        is_defined(with_consts(f, consts), d.id),
        last_def(defs(with_consts(f, consts)), d.id) == Some(d),
        last_def(defs(f), d.id) == Some(d),
        type_of(with_consts(f, consts), d.id) == Some(d.ty),
        type_of(f, d.id) == Some(d.ty),
        d.id.0 < f.next_value,
{
    let g = with_consts(f, consts);
    lemma_front_defs(f, consts);
    assert(defs(g).contains(d));
    lemma_unique_def(defs(g), d);
    lemma_unique_def(defs(f), d);
    let k = defs(f).index_of(d);
    assert(type_agrees(f, k));
    assert(defs(f)[k].id.0 < f.next_value);
    assert(defs(g)[defs(g).index_of(d)] == d);
    lemma_const_types(consts, consts.len(), f.type_cache, f.next_value, d.id);
}

/// A constant has its definition and its type.
proof fn lemma_front_const(f: FuncView, consts: Seq<InstView>, k: int)
    requires
        takes_consts(f, consts),
        0 <= k < consts.len(),
    ensures
        is_defined(with_consts(f, consts), consts[k].id),
        last_def(defs(with_consts(f, consts)), consts[k].id) == Some(front_defs(f, consts)[k]),
        type_of(with_consts(f, consts), consts[k].id) == Some(consts[k].ty),
{
    let g = with_consts(f, consts);
    let d = front_defs(f, consts)[k];
    lemma_front_defs(f, consts);
    assert(front_defs(f, consts).contains(d));
    assert(defs(g).contains(d));
    lemma_unique_def(defs(g), d);
    assert(defs(g)[defs(g).index_of(d)] == d);
    lemma_const_types(consts, consts.len(), f.type_cache, f.next_value, d.id);
}

/// The blocks of a function with constants in front.
proof fn lemma_front_blocks(f: FuncView, consts: Seq<InstView>)
    requires
        takes_consts(f, consts),
    ensures
        ({
            let g = with_consts(f, consts);
            let at = block_pos(f.blocks, f.entry);
            &&& 0 <= at < f.blocks.len()
            &&& f.blocks[at].id == f.entry
            &&& g.blocks.len() == f.blocks.len()
            &&& same_graph(f.blocks, g.blocks)
            &&& has_block(g.blocks, g.entry)
            &&& block_pos(g.blocks, g.entry) == at
            &&& forall|i: int|
                0 <= i < f.blocks.len() ==> #[trigger] g.blocks[i] == (BlockView {
                    insts: if i == at {
                        consts + f.blocks[i].insts
                    } else {
                        f.blocks[i].insts
                    },
                    ..f.blocks[i]
                })
            &&& forall|i: int|
                0 <= i < f.blocks.len() && i != at ==> (#[trigger] f.blocks[i]).id != f.entry
        }),
{
    let g = with_consts(f, consts);
    let at = block_pos(f.blocks, f.entry);
    lemma_block_pos(f.blocks, f.entry);
    assert forall|i: int| 0 <= i < f.blocks.len() implies (#[trigger] g.blocks[i]).id
        == f.blocks[i].id && targets_of(g.blocks[i]) == targets_of(f.blocks[i]) by {}
    lemma_same_place(f.blocks, g.blocks, f.entry);
    assert forall|i: int| 0 <= i < f.blocks.len() && i != at implies (#[trigger] f.blocks[i]).id
        != f.entry by {
        assert(is_first_block(f.blocks, f.blocks[i].id, i));
        assert(is_first_block(f.blocks, f.blocks[at].id, at));
    }
}

/// What was at hand is at hand, and so are the constants.
proof fn lemma_front_hand(f: FuncView, consts: Seq<InstView>, i: int, v: ValueId, at: int)
    requires
        takes_consts(f, consts),
        0 <= i < f.blocks.len(),
        at_hand(f, i, v, at),
    ensures
        at_hand(with_consts(f, consts), i, v, at + moved(f, consts, i)),
        type_of(with_consts(f, consts), v) == type_of(f, v),
{
    let g = with_consts(f, consts);
    lemma_last_def(defs(f), v);
    let d = last_def(defs(f), v)->0;
    lemma_front_value(f, consts, d);
    lemma_front_blocks(f, consts);
    lemma_same_dominance(f, g);
    let a = f.blocks[i].insts;
    let b = g.blocks[i].insts;
    let n = moved(f, consts, i);
    assert forall|k: int| 0 <= k < n implies (#[trigger] b[k]).id != v by {
        assert(b[k] == consts[k]);
    }
    assert forall|k: int| 0 <= k < a.len() implies #[trigger] b[n + k] == a[k] by {}
    lemma_later_pos(a, b, n, a.len(), v);
}

proof fn lemma_later_pos(a: Seq<InstView>, b: Seq<InstView>, n: int, m: nat, v: ValueId)
    requires
        0 <= n,
        m <= a.len(),
        b.len() == a.len() + n,
        forall|k: int| 0 <= k < n ==> (#[trigger] b[k]).id != v,
        forall|k: int| 0 <= k < a.len() ==> #[trigger] b[n + k] == a[k],
    ensures
        match last_inst_pos(a, m, v) {
            Some(p) => last_inst_pos(b, (m + n) as nat, v) == Some(p + n),
            None => last_inst_pos(b, (m + n) as nat, v) is None,
        },
    decreases m,
{
    if m > 0 {
        lemma_later_pos(a, b, n, (m - 1) as nat, v);
        assert(b[n + (m - 1)] == a[m - 1]);
    } else {
        lemma_last_pos(b, n as nat, v);
    }
}

/// The constants are at hand wherever control comes, behind them.
proof fn lemma_const_hand(f: FuncView, consts: Seq<InstView>, i: int, k: int, at: int)
    requires
        takes_consts(f, consts),
        0 <= i < f.blocks.len(),
        0 <= k < consts.len(),
        moved(f, consts, i) <= at,
        reachable(f, f.blocks[i].id),
    ensures
        at_hand(with_consts(f, consts), i, consts[k].id, at),
{
    let g = with_consts(f, consts);
    let v = consts[k].id;
    lemma_front_const(f, consts, k);
    lemma_front_blocks(f, consts);
    lemma_same_dominance(f, g);
    lemma_dominates_self(g, f.blocks[i].id);
    if f.blocks[i].id == f.entry {
        let b = g.blocks[i].insts;
        let n = consts.len();
        lemma_last_pos(b, b.len(), v);
        let p = last_inst_pos(b, b.len(), v);
        if p is Some && p->0 >= n {
            lemma_front_old(f, consts, i, p->0 - n);
        }
    }
}

/// Instructions have the names that were handed out before.
proof fn lemma_front_old(f: FuncView, consts: Seq<InstView>, i: int, j: int)
    requires
        takes_consts(f, consts),
        0 <= i < f.blocks.len(),
        0 <= j < f.blocks[i].insts.len(),
    ensures
        f.blocks[i].insts[j].id.0 < f.next_value,
{
    let y = f.blocks[i];
    lemma_inst_def(f, i, j);
    lemma_front_value(f, consts, Def { id: y.insts[j].id, ty: y.insts[j].ty, block: y.id });
}

proof fn lemma_front_block(f: FuncView, consts: Seq<InstView>, i: int)
    requires
        takes_consts(f, consts),
        0 <= i < f.blocks.len(),
    ensures
        sound_block(with_consts(f, consts), with_consts(f, consts).blocks[i]),
        typed_block(with_consts(f, consts), with_consts(f, consts).blocks[i]),
{
    let g = with_consts(f, consts);
    let a = f.blocks[i];
    let b = g.blocks[i];
    let n = moved(f, consts, i);
    lemma_front_blocks(f, consts);
    assert(sound_block(f, f.blocks[i]));
    assert(typed_block(f, f.blocks[i]));
    assert forall|k: int| 0 <= k < targets_of(b).len() implies has_block(
        g.blocks,
        #[trigger] targets_of(b)[k],
    ) by {
        assert(has_block(f.blocks, targets_of(a)[k]));
        lemma_same_place(f.blocks, g.blocks, targets_of(a)[k]);
    }
    assert forall|j: int| 0 <= j < b.insts.len() implies all_defined(
        g,
        (#[trigger] b.insts[j]).kind.args,
    ) && all_on_the_way(g, b, b.insts[j].kind.args, j) && consistency_msgs(g, b.insts[j]).len()
        == 0 by {
        if j < n {
            assert(b.insts[j] == consts[j]);
            assert(gives_const(consts[j]));
        } else {
            assert(b.insts[j] == a.insts[j - n]);
            let args = a.insts[j - n].kind.args;
            assert(all_defined(f, a.insts[j - n].kind.args));
            assert forall|k: int| 0 <= k < args.len() implies is_defined(g, #[trigger] args[k])
                && defined_on_the_way(g, b, args[k], j) && type_of(g, args[k]) == type_of(
                f,
                args[k],
            ) by {
                assert(is_defined(f, args[k]));
                assert(defined_on_the_way(f, a, args[k], j - n));
                assert(at_hand(f, i, args[k], j - n));
                lemma_front_hand(f, consts, i, args[k], j - n);
            }
            assert(has_operands(f.blocks[i].insts[j - n]));
            assert(consistency_msgs(f, a.insts[j - n]).len() == 0);
            lemma_like_consistency(f, g, a.insts[j - n], b.insts[j]);
        }
    }
    let t = a.term->0;
    let uses = term_uses(t);
    let at = a.insts.len() as int;
    assert forall|k: int| 0 <= k < uses.len() implies is_defined(g, #[trigger] uses[k])
        && defined_on_the_way(g, b, uses[k], at + n) && type_of(g, uses[k]) == type_of(f, uses[k]) by {
        assert(is_defined(f, uses[k]));
        assert(defined_on_the_way(f, a, uses[k], at));
        assert(at_hand(f, i, uses[k], at));
        lemma_front_hand(f, consts, i, uses[k], at);
    }
    assert forall|x: BlockId| #[trigger] term_targets(t).contains(x) implies same_target(f, g, x) by {
        let k = targets_of(a).index_of(x);
        assert(has_block(f.blocks, targets_of(a)[k]));
        lemma_same_place(f.blocks, g.blocks, x);
        lemma_block_pos(f.blocks, x);
        assert(g.blocks[block_pos(f.blocks, x)].params == f.blocks[block_pos(f.blocks, x)].params);
    }
    lemma_left_term(f, g, t, a.name);
}

/// Putting constants in front of all instructions keeps a function sound. What was
/// at hand is at hand, and so are the constants wherever control comes.
pub proof fn lemma_fronted(f: FuncView, consts: Seq<InstView>)
    requires
        takes_consts(f, consts),
    ensures
        ({
            let g = with_consts(f, consts);
            &&& sound_function(g)
            &&& all_operands(g)
            &&& value_names_used(g)
            &&& has_block(g.blocks, g.entry)
            &&& block_pos(g.blocks, g.entry) == block_pos(f.blocks, f.entry)
            &&& same_graph(f.blocks, g.blocks)
            &&& forall|i: int|
                0 <= i < f.blocks.len() ==> #[trigger] g.blocks[i] == (BlockView {
                    insts: if i == block_pos(f.blocks, f.entry) {
                        consts + f.blocks[i].insts
                    } else {
                        f.blocks[i].insts
                    },
                    ..f.blocks[i]
                })
            &&& forall|v: ValueId| #[trigger]
                is_defined(f, v) ==> is_defined(g, v) && type_of(g, v) == type_of(f, v)
            &&& forall|d: Def| #[trigger]
                defs(f).contains(d) ==> last_def(defs(g), d.id) == Some(d) && type_of(g, d.id)
                    == Some(d.ty)
            &&& forall|i: int, v: ValueId, at: int|
                0 <= i < f.blocks.len() && #[trigger] at_hand(f, i, v, at) ==> at_hand(
                    g,
                    i,
                    v,
                    at + moved(f, consts, i),
                )
            &&& forall|k: int|
                0 <= k < consts.len() ==> is_defined(g, (#[trigger] consts[k]).id) && type_of(
                    g,
                    consts[k].id,
                ) == Some(consts[k].ty)
            &&& forall|i: int, k: int, at: int|
                0 <= i < f.blocks.len() && 0 <= k < consts.len() && moved(f, consts, i) <= at
                    && reachable(f, f.blocks[i].id) ==> #[trigger] at_hand(g, i, consts[k].id, at)
        }),
{
    let g = with_consts(f, consts);
    lemma_front_blocks(f, consts);
    lemma_front_defs(f, consts);
    assert forall|i: int| 0 <= i < g.blocks.len() implies sound_block(g, #[trigger] g.blocks[i])
        && typed_block(g, g.blocks[i]) by {
        lemma_front_block(f, consts, i);
    }
    assert forall|i: int| 0 <= i < defs(g).len() implies #[trigger] type_agrees(g, i) by {
        lemma_front_def(f, consts, i);
    }
    assert forall|i: int| 0 <= i < defs(g).len() implies !#[trigger] defined_before(defs(g), i) by {}
    assert forall|i: int| 0 <= i < defs(g).len() implies (#[trigger] defs(g)[i]).id.0
        < g.next_value by {
        lemma_front_def(f, consts, i);
    }
    assert forall|i: int| 0 <= i < g.blocks.len() implies is_first_block(
        g.blocks,
        (#[trigger] g.blocks[i]).id,
        i,
    ) by {
        assert(is_first_block(f.blocks, f.blocks[i].id, i));
        assert forall|j: int| 0 <= j < i implies (#[trigger] g.blocks[j]).id != g.blocks[i].id by {
            assert(f.blocks[j].id != f.blocks[i].id);
        }
    }
    assert(!has_duplicate_blocks(g));
    assert forall|b: int, j: int|
        0 <= b < g.blocks.len() && 0 <= j < g.blocks[b].insts.len() implies has_operands(
        #[trigger] g.blocks[b].insts[j],
    ) by {
        let n = moved(f, consts, b);
        if j < n {
            assert(g.blocks[b].insts[j] == consts[j]);
            assert(gives_const(consts[j]));
        } else {
            assert(g.blocks[b].insts[j] == f.blocks[b].insts[j - n]);
            assert(has_operands(f.blocks[b].insts[j - n]));
        }
    }
    assert forall|v: ValueId| #[trigger] is_defined(f, v) implies is_defined(g, v) && type_of(g, v)
        == type_of(f, v) by {
        lemma_last_def(defs(f), v);
        lemma_front_value(f, consts, last_def(defs(f), v)->0);
    }
    assert forall|d: Def| #[trigger] defs(f).contains(d) implies last_def(defs(g), d.id) == Some(d)
        && type_of(g, d.id) == Some(d.ty) by {
        lemma_front_value(f, consts, d);
    }
    assert forall|i: int, v: ValueId, at: int|
        0 <= i < f.blocks.len() && #[trigger] at_hand(f, i, v, at) implies at_hand(
        g,
        i,
        v,
        at + moved(f, consts, i),
    ) by {
        lemma_front_hand(f, consts, i, v, at);
    }
    assert forall|k: int| 0 <= k < consts.len() implies is_defined(g, (#[trigger] consts[k]).id)
        && type_of(g, consts[k].id) == Some(consts[k].ty) by {
        lemma_front_const(f, consts, k);
    }
    assert forall|i: int, k: int, at: int|
        0 <= i < f.blocks.len() && 0 <= k < consts.len() && moved(f, consts, i) <= at && reachable(
            f,
            f.blocks[i].id,
        ) implies #[trigger] at_hand(g, i, consts[k].id, at) by {
        lemma_const_hand(f, consts, i, k, at);
    }
}

proof fn lemma_front_def(f: FuncView, consts: Seq<InstView>, i: int)
    requires
        takes_consts(f, consts),
        0 <= i < defs(with_consts(f, consts)).len(),
    ensures
        type_agrees(with_consts(f, consts), i),
        defs(with_consts(f, consts))[i].id.0 < f.next_value + consts.len(),
{
    let g = with_consts(f, consts);
    let d = defs(g)[i];
    lemma_front_defs(f, consts);
    assert(defs(g).contains(d));
    if defs(f).contains(d) {
        lemma_front_value(f, consts, d);
    } else {
        let k = front_defs(f, consts).index_of(d);
        lemma_front_const(f, consts, k);
        assert(consts[k].id == ValueId((f.next_value + k) as u32));
    }
}

/// What defines the same as something that defines the same defines the same.
pub proof fn lemma_frames_chain(f: FuncView, g: FuncView, k: FuncView)
    requires
        same_frames(f, g),
        same_frames(g, k),
    ensures
        same_frames(f, k),
{
    assert forall|i: int| 0 <= i < f.blocks.len() implies same_frame(
        f.blocks[i],
        #[trigger] k.blocks[i],
    ) by {
        let a = f.blocks[i];
        let b = g.blocks[i];
        let c = k.blocks[i];
        assert(same_frame(a, b));
        assert(same_frame(b, c));
        assert forall|j: int| 0 <= j < a.insts.len() implies (#[trigger] c.insts[j]).id
            == a.insts[j].id && c.insts[j].ty == a.insts[j].ty by {
            assert(b.insts[j].id == a.insts[j].id && b.insts[j].ty == a.insts[j].ty);
        }
    }
}

/// Dropping instructions that nothing reads keeps a sound function sound.
pub proof fn lemma_without_unread(f: FuncView, dead: Set<ValueId>)
    requires
        has_block(f.blocks, f.entry),
        sound_function(f),
        all_operands(f),
        forall|v: ValueId| #[trigger] dead.contains(v) ==> !reads(f, v),
    ensures
        sound_function(func_without(f, dead)),
{
    let g = func_without(f, dead);
    let cond = |i: InstView| !dead.contains(i.id);
    let keep = |b: int| Seq::new(f.blocks[b].insts.len(), |k: int| cond(f.blocks[b].insts[k]));
    assert forall|b: int| 0 <= b < f.blocks.len() implies #[trigger] g.blocks[b] == (BlockView {
        insts: masked(f.blocks[b].insts, keep(b)),
        ..f.blocks[b]
    }) by {
        lemma_masked_filter(f.blocks[b].insts, keep(b), cond);
        assert(g.blocks[b].insts == f.blocks[b].insts.filter(cond));
    }
    lemma_unread_dropped(f, g, keep);
}

/// An instruction stands in a block.
pub proof fn lemma_inst_place(f: FuncView, n: nat, x: InstView) -> (r: (int, int))
    requires
        n <= f.blocks.len(),
        insts_upto(f.blocks, n).contains(x),
    ensures
        0 <= r.0 < n,
        0 <= r.1 < f.blocks[r.0].insts.len(),
        f.blocks[r.0].insts[r.1] == x,
    decreases n,
{
    let all = insts_upto(f.blocks, n);
    let i = all.index_of(x);
    let before = insts_upto(f.blocks, (n - 1) as nat);
    if i < before.len() {
        assert(before[i] == x);
        lemma_inst_place(f, (n - 1) as nat, x)
    } else {
        assert(f.blocks[n - 1].insts[i - before.len()] == x);
        (n - 1, i - before.len())
    }
}

/// An instruction is among the definitions.
pub proof fn lemma_inst_def(f: FuncView, i: int, j: int)
    requires
        0 <= i < f.blocks.len(),
        0 <= j < f.blocks[i].insts.len(),
    ensures
        defs(f).contains(
            Def {
                id: f.blocks[i].insts[j].id,
                ty: f.blocks[i].insts[j].ty,
                block: f.blocks[i].id,
            },
        ),
{
    let y = f.blocks[i];
    let e = Def { id: y.insts[j].id, ty: y.insts[j].ty, block: y.id };
    assert(own_defs(y)[y.params.len() + j] == inst_defs(y)[j]);
    assert(own_defs(y).contains(e));
    lemma_def_place(f.blocks, f.blocks.len(), e);
    lemma_in_concat(param_defs(f.params, f.entry), defs_upto(f.blocks, f.blocks.len()), e);
}

} // verus!
