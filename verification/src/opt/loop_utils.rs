//! What the loop transformations share.

use crate::ids::{same_id, IdMap};
use crate::ir::cfg::{mentioned, preds_of};
use crate::ir::inst::{
    has_block, the_block, BlockId, FuncRef, FuncView, Function, InstKind, TermView, Terminator,
    ValueId,
};
use crate::ir::loops::NaturalLoop;
use crate::opt::alias::const_int;
use crate::opt::insts::{all_insts, find_first};
use vstd::prelude::*;

verus! {

/// The integer constant that a value is.
pub fn resolve_const_int(func: &Function, v: ValueId) -> (r: Option<i64>)
    ensures
        r == const_int(func@, v),
{
    let list = all_insts(func);
    match find_first(&list, v) {
        Some(i) => match &i.kind {
            InstKind::ConstInt(c, _) => if i64::MIN as i128 <= *c && *c <= i64::MAX as i128 {
                Some(*c as i64)
            } else {
                None
            },
            InstKind::Call(callee, _) => match callee {
                FuncRef::Internal(_) => None,
                FuncRef::External(_) => None,
                FuncRef::Indirect(_) => None,
            },
            _ => None,
        },
        None => None,
    }
}

/// The blocks outside a set that branch to `h`, once for each branch.
pub open spec fn outside_preds(f: FuncView, h: BlockId, body: Set<BlockId>) -> Seq<BlockId> {
    preds_of(f.blocks, h).filter(|b: BlockId| !body.contains(b))
}

/// Does `p` end with a branch to `h` that is taken always?
pub open spec fn only_branches_to(f: FuncView, p: BlockId, h: BlockId) -> bool {
    has_block(f.blocks, p) && (the_block(f.blocks, p).term matches Some(TermView::Branch(d, _)) && d
        == h)
}

/// The block from which alone a loop is entered, and which leads nowhere else.
pub open spec fn preheader_of(f: FuncView, h: BlockId, body: Set<BlockId>) -> Option<BlockId> {
    let out = outside_preds(f, h, body);
    if out.len() == 1 && only_branches_to(f, out[0], h) {
        Some(out[0])
    } else {
        None
    }
}

/// Are these the predecessors of every block?
pub open spec fn preds_are(f: FuncView, preds: Map<BlockId, Vec<BlockId>>) -> bool {
    &&& forall|b: BlockId| #[trigger] preds.contains_key(b) == mentioned(f.blocks, b)
    &&& forall|b: BlockId|
        preds.contains_key(b) ==> (#[trigger] preds[b])@ == preds_of(f.blocks, b)
}

/// The block from which alone a loop is entered, and which leads nowhere else.
pub fn find_preheader(
    func: &Function,
    lp: &NaturalLoop,
    preds: &IdMap<BlockId, Vec<BlockId>>,
) -> (r: Option<BlockId>)
    requires
        preds_are(func@, preds@),
        has_block(func@.blocks, lp.header),
    ensures
        r == preheader_of(func@, lp.header, lp.body@),
{
    let ghost f = func@;
    let ghost cond = |b: BlockId| !lp.body@.contains(b);
    let mut found: Option<BlockId> = None;
    match preds.get(&lp.header) {
        Some(list) => {
            let ghost s = preds_of(f.blocks, lp.header);
            let mut i: usize = 0;
            proof {
                reveal(Seq::filter);
                assert(list@ == s);
                assert(s.take(0).filter(cond) =~= Seq::<BlockId>::empty());
            }
            while i < list.len()
                invariant
                    f == func@,
                    i <= list@.len(),
                    list@ == s,
                    s == preds_of(f.blocks, lp.header),
                    cond == (|b: BlockId| !lp.body@.contains(b)),
                    match found {
                        Some(b) => s.take(i as int).filter(cond) == seq![b],
                        None => s.take(i as int).filter(cond) == Seq::<BlockId>::empty(),
                    },
                decreases list@.len() - i,
            {
                proof {
                    reveal(Seq::filter);
                    assert(s.take(i + 1).drop_last() =~= s.take(i as int));
                    assert(s.take(i + 1).last() == s[i as int]);
                }
                if !lp.body.contains(&list[i]) {
                    if found.is_some() {
                        proof {
                            lemma_filter_grows(s, i + 1, cond);
                        }
                        return None;
                    }
                    found = Some(list[i]);
                    proof {
                        assert(s.take(i + 1).filter(cond) =~= seq![list@[i as int]]);
                    }
                }
                i = i + 1;
            }
            proof {
                assert(s.take(i as int) =~= s);
            }
        },
        None => {
            proof {
                assert(mentioned(f.blocks, lp.header));
            }
        },
    }
    match found {
        Some(p) => match func.try_block(p) {
            Some(block) => match &block.terminator {
                Some(Terminator::Branch(dest, _)) => if same_id(*dest, lp.header) {
                    Some(p)
                } else {
                    None
                },
                _ => None,
            },
            None => None,
        },
        None => None,
    }
}

/// More of a list is kept of more of it.
proof fn lemma_filter_grows<T>(s: Seq<T>, n: int, cond: spec_fn(T) -> bool)
    requires
        0 <= n <= s.len(),
    ensures
        s.take(n).filter(cond).len() <= s.filter(cond).len(),
    decreases s.len(),
{
    reveal(Seq::filter);
    if n < s.len() {
        lemma_filter_grows(s.drop_last(), n, cond);
        assert(s.drop_last().take(n) =~= s.take(n));
    } else {
        assert(s.take(n) =~= s);
    }
}

} // verus!
