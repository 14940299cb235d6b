//! The instructions of a function as one list.

use crate::ids::same_id;
use crate::ir::inst::{BlockView, FuncView, Function, Inst, InstView, ValueId};
use vstd::prelude::*;

verus! {

/// The instructions of the first `n` blocks, in order.
pub open spec fn insts_upto(blocks: Seq<BlockView>, n: nat) -> Seq<InstView>
    decreases n,
{
    if n == 0 {
        Seq::empty()
    } else {
        insts_upto(blocks, (n - 1) as nat) + blocks[n - 1].insts
    }
}

/// The instructions of a function, in order.
pub open spec fn insts_of(f: FuncView) -> Seq<InstView> {
    insts_upto(f.blocks, f.blocks.len())
}

/// The models of a list of references to instructions.
pub open spec fn refs_view(list: Seq<&Inst>) -> Seq<InstView> {
    Seq::new(list.len(), |i: int| list[i]@)
}

/// The first instruction that defines `v`.
pub open spec fn first_inst(s: Seq<InstView>, v: ValueId) -> Option<InstView>
    decreases s.len(),
{
    if s.len() == 0 {
        None
    } else {
        match first_inst(s.drop_last(), v) {
            Some(i) => Some(i),
            None => if s.last().id == v {
                Some(s.last())
            } else {
                None
            },
        }
    }
}

/// The last instruction that defines `v`.
pub open spec fn last_inst(s: Seq<InstView>, v: ValueId) -> Option<InstView>
    decreases s.len(),
{
    if s.len() == 0 {
        None
    } else if s.last().id == v {
        Some(s.last())
    } else {
        last_inst(s.drop_last(), v)
    }
}

/// The first instruction that defines a value is one of the instructions, and
/// defines the value.
pub proof fn lemma_first_inst(s: Seq<InstView>, v: ValueId)
    ensures
        first_inst(s, v) matches Some(i) ==> i.id == v && s.contains(i),
        first_inst(s, v) is None ==> forall|k: int| 0 <= k < s.len() ==> (#[trigger] s[k]).id != v,
    decreases s.len(),
{
    if s.len() > 0 {
        let t = s.drop_last();
        lemma_first_inst(t, v);
        assert(s[s.len() - 1] == s.last());
        if first_inst(t, v) is Some {
            let i = first_inst(t, v)->0;
            let k = t.index_of(i);
            assert(s[k] == i);
        } else if s.last().id != v {
            assert forall|k: int| 0 <= k < s.len() implies (#[trigger] s[k]).id != v by {
                if k < t.len() {
                    assert(t[k] == s[k]);
                }
            }
        }
    }
}

/// The last instruction that defines a value is one of the instructions, and
/// defines the value.
pub proof fn lemma_last_inst(s: Seq<InstView>, v: ValueId)
    ensures
        last_inst(s, v) matches Some(i) ==> i.id == v && s.contains(i),
        last_inst(s, v) is None ==> forall|k: int| 0 <= k < s.len() ==> (#[trigger] s[k]).id != v,
    decreases s.len(),
{
    if s.len() > 0 {
        let t = s.drop_last();
        assert(s[s.len() - 1] == s.last());
        if s.last().id != v {
            lemma_last_inst(t, v);
            if last_inst(t, v) is Some {
                let k = t.index_of(last_inst(t, v)->0);
                assert(s[k] == t[k]);
            } else {
                assert forall|k: int| 0 <= k < s.len() implies (#[trigger] s[k]).id != v by {
                    if k < t.len() {
                        assert(t[k] == s[k]);
                    }
                }
            }
        }
    }
}

/// The first instruction of a longer list, where the shorter one has none.
proof fn lemma_first_prefix(s: Seq<InstView>, n: int, v: ValueId)
    requires
        0 <= n < s.len(),
        s[n].id == v,
        forall|k: int| 0 <= k < n ==> (#[trigger] s[k]).id != v,
    ensures
        first_inst(s, v) == Some(s[n]),
    decreases s.len(),
{
    let t = s.drop_last();
    if n < t.len() {
        assert(forall|k: int| 0 <= k < n ==> t[k] == s[k]);
        lemma_first_prefix(t, n, v);
    } else {
        lemma_first_inst(t, v);
        if first_inst(t, v) is Some {
            let k = t.index_of(first_inst(t, v)->0);
            assert(s[k].id == v);
        }
    }
}

/// The last instruction is found from behind.
proof fn lemma_last_suffix(s: Seq<InstView>, n: int, v: ValueId)
    requires
        0 <= n <= s.len(),
        forall|k: int| n <= k < s.len() ==> (#[trigger] s[k]).id != v,
    ensures
        last_inst(s, v) == last_inst(s.take(n), v),
    decreases s.len() - n,
{
    if n < s.len() {
        lemma_last_suffix(s, n + 1, v);
        assert(s.take(n + 1).drop_last() =~= s.take(n));
        assert(s[n].id != v);
    } else {
        assert(s.take(n) =~= s);
    }
}

/// The instructions of the first blocks open those of more blocks.
pub proof fn lemma_insts_prefix(blocks: Seq<BlockView>, a: nat, n: nat)
    requires
        a <= n,
    ensures
        insts_upto(blocks, a).is_prefix_of(insts_upto(blocks, n)),
    decreases n,
{
    if a < n {
        lemma_insts_prefix(blocks, a, (n - 1) as nat);
    }
}

/// An instruction of a function stands in one of its blocks.
pub proof fn lemma_inst_block(blocks: Seq<BlockView>, n: nat, x: InstView)
    requires
        n <= blocks.len(),
        insts_upto(blocks, n).contains(x),
    ensures
        exists|b: int, k: int|
            0 <= b < n && 0 <= k < blocks[b].insts.len() && #[trigger] blocks[b].insts[k] == x,
    decreases n,
{
    let i = insts_upto(blocks, n).index_of(x);
    let before = insts_upto(blocks, (n - 1) as nat);
    if i < before.len() {
        assert(before[i] == x);
        lemma_inst_block(blocks, (n - 1) as nat, x);
    } else {
        assert(blocks[n - 1].insts[i - before.len()] == x);
    }
}

/// An instruction of a block is one of the function's.
pub proof fn lemma_block_inst(blocks: Seq<BlockView>, n: nat, b: int, k: int)
    requires
        0 <= b < n <= blocks.len(),
        0 <= k < blocks[b].insts.len(),
    ensures
        insts_upto(blocks, n).contains(blocks[b].insts[k]),
    decreases n,
{
    let before = insts_upto(blocks, (n - 1) as nat);
    if b == n - 1 {
        assert(insts_upto(blocks, n)[before.len() + k] == blocks[b].insts[k]);
    } else {
        lemma_block_inst(blocks, (n - 1) as nat, b, k);
        let i = before.index_of(blocks[b].insts[k]);
        assert(insts_upto(blocks, n)[i] == blocks[b].insts[k]);
    }
}

/// Every instruction of a function, in order.
pub fn all_insts<'a>(func: &'a Function) -> (r: Vec<&'a Inst>)
    ensures
        refs_view(r@) == insts_of(func@),
{
    let mut out: Vec<&'a Inst> = Vec::new();
    let mut b: usize = 0;
    proof {
        assert(refs_view(out@) =~= insts_upto(func@.blocks, 0));
    }
    while b < func.blocks.len()
        invariant
            b <= func.blocks@.len(),
            refs_view(out@) == insts_upto(func@.blocks, b as nat),
        decreases func.blocks@.len() - b,
    {
        let ghost before = refs_view(out@);
        let ghost here = func@.blocks[b as int].insts;
        let mut k: usize = 0;
        proof {
            assert(before + here.take(0) =~= before);
        }
        while k < func.blocks[b].insts.len()
            invariant
                b < func.blocks@.len(),
                k <= func.blocks@[b as int].insts@.len(),
                here == func@.blocks[b as int].insts,
                refs_view(out@) == before + here.take(k as int),
            decreases func.blocks@[b as int].insts@.len() - k,
        {
            let ghost sofar = refs_view(out@);
            out.push(&func.blocks[b].insts[k]);
            proof {
                assert(refs_view(out@) =~= sofar.push(here[k as int]));
                assert(sofar.push(here[k as int]) =~= before + here.take(k + 1));
            }
            k = k + 1;
        }
        proof {
            assert(here.take(k as int) =~= here);
        }
        b = b + 1;
    }
    out
}

/// The first instruction of a list that defines `v`.
pub fn find_first<'a>(list: &Vec<&'a Inst>, v: ValueId) -> (r: Option<&'a Inst>)
    ensures
        match r {
            Some(i) => first_inst(refs_view(list@), v) == Some(i@),
            None => first_inst(refs_view(list@), v) is None,
        },
{
    let ghost s = refs_view(list@);
    let mut i: usize = 0;
    while i < list.len()
        invariant
            i <= list@.len(),
            s == refs_view(list@),
            forall|k: int| 0 <= k < i ==> (#[trigger] s[k]).id != v,
        decreases list@.len() - i,
    {
        proof {
            assert(s[i as int] == list@[i as int]@);
        }
        if same_id(list[i].id, v) {
            proof {
                lemma_first_prefix(s, i as int, v);
            }
            return Some(list[i]);
        }
        i = i + 1;
    }
    proof {
        lemma_first_inst(s, v);
        if first_inst(s, v) is Some {
            let k = s.index_of(first_inst(s, v)->0);
            assert(s[k].id == v);
        }
    }
    None
}

/// The last instruction of a list that defines `v`.
pub fn find_last<'a>(list: &Vec<&'a Inst>, v: ValueId) -> (r: Option<&'a Inst>)
    ensures
        match r {
            Some(i) => last_inst(refs_view(list@), v) == Some(i@),
            None => last_inst(refs_view(list@), v) is None,
        },
{
    let ghost s = refs_view(list@);
    let mut i: usize = list.len();
    while i > 0
        invariant
            i <= list@.len(),
            s == refs_view(list@),
            forall|k: int| i <= k < s.len() ==> (#[trigger] s[k]).id != v,
        decreases i,
    {
        let p: usize = i - 1;
        proof {
            assert(s[p as int] == list@[p as int]@);
        }
        if same_id(list[p].id, v) {
            proof {
                lemma_last_suffix(s, i as int, v);
                assert(s.take(i as int).last() == s[p as int]);
            }
            return Some(list[p]);
        }
        i = p;
    }
    proof {
        lemma_last_suffix(s, 0, v);
    }
    None
}

} // verus!
