use armfortas::ids::{IdMap, IdSet};
use armfortas::ir::dom::compute_immediate_dominators;
use armfortas::ir::domtree::{compute_dominance_frontiers, dominator_tree_preorder};
use armfortas::ir::inst::{BlockId, Function, Inst, InstKind, Terminator};
use armfortas::ir::types::IrType;
use armfortas::lexer::{Position, Span};
use std::collections::HashSet;

fn idom(idoms: &IdMap<BlockId, BlockId>, b: BlockId) -> BlockId {
    *idoms.get(&b).expect("block has an immediate dominator")
}

fn frontier(df: &IdMap<BlockId, IdSet<BlockId>>, b: BlockId) -> HashSet<BlockId> {
    df.get(&b).expect("block has a frontier").items().iter().copied().collect()
}

fn dummy_span() -> Span {
    let p = Position { line: 1, col: 1 };
    Span { start: p, end: p, file_id: 0 }
}

/// Build a diamond CFG:
///      entry
///      /   \
///     a     b
///      \   /
///      merge
/// Used by dom-tree and dominance-frontier tests.
fn diamond_function() -> (Function, BlockId, BlockId, BlockId) {
    let mut f = Function::new("f".into(), vec![], IrType::Void);
    let a = f.create_block("a");
    let b = f.create_block("b");
    let merge = f.create_block("merge");

    let entry = f.entry;
    let cond = f.next_value_id();
    f.block_mut(entry).insts.push(Inst {
        id: cond,
        kind: InstKind::ConstBool(true),
        ty: IrType::Bool,
        span: dummy_span(),
    });
    f.block_mut(entry).terminator = Some(Terminator::CondBranch {
        cond,
        true_dest: a,
        true_args: vec![],
        false_dest: b,
        false_args: vec![],
    });
    f.block_mut(a).terminator = Some(Terminator::Branch(merge, vec![]));
    f.block_mut(b).terminator = Some(Terminator::Branch(merge, vec![]));
    f.block_mut(merge).terminator = Some(Terminator::Return(None));

    (f, a, b, merge)
}

#[test]
fn immediate_dominators_diamond() {
    let (f, a, b, merge) = diamond_function();
    let idoms = compute_immediate_dominators(&f);
    // entry has no idom.
    assert!(!idoms.contains_key(&f.entry));
    // a, b, merge all have entry as their idom.
    assert_eq!(idom(&idoms, a), f.entry);
    assert_eq!(idom(&idoms, b), f.entry);
    assert_eq!(idom(&idoms, merge), f.entry);
}

#[test]
fn dominance_frontier_diamond() {
    let (f, a, b, merge) = diamond_function();
    let df = compute_dominance_frontiers(&f);
    // a's frontier is {merge} — a dominates itself (a pred of
    // merge) but doesn't dominate merge.
    assert_eq!(frontier(&df, a), HashSet::from([merge]));
    // b's frontier is also {merge}.
    assert_eq!(frontier(&df, b), HashSet::from([merge]));
    // merge's frontier is empty (it's a join point itself, but
    // has no successors that are join points of anything else
    // in this CFG).
    assert!(frontier(&df, merge).is_empty());
    // entry's frontier is empty.
    assert!(frontier(&df, f.entry).is_empty());
}

#[test]
fn dominator_tree_preorder_visits_entry_first() {
    let (f, _a, _b, _merge) = diamond_function();
    let order = dominator_tree_preorder(&f);
    assert_eq!(order[0], f.entry);
    assert_eq!(order.len(), 4);
}

/// A simple loop:
///   entry → header → body → header
///                  → exit
/// Body dominates nothing below header; header dominates body,
/// exit, and the back-edge doesn't change dominance.
#[test]
fn dominance_frontier_loop() {
    let mut f = Function::new("f".into(), vec![], IrType::Void);
    let header = f.create_block("header");
    let body = f.create_block("body");
    let exit = f.create_block("exit");

    let entry = f.entry;
    f.block_mut(entry).terminator = Some(Terminator::Branch(header, vec![]));

    let cond = f.next_value_id();
    f.block_mut(header).insts.push(Inst {
        id: cond,
        kind: InstKind::ConstBool(true),
        ty: IrType::Bool,
        span: dummy_span(),
    });
    f.block_mut(header).terminator = Some(Terminator::CondBranch {
        cond,
        true_dest: body,
        true_args: vec![],
        false_dest: exit,
        false_args: vec![],
    });
    f.block_mut(body).terminator = Some(Terminator::Branch(header, vec![]));
    f.block_mut(exit).terminator = Some(Terminator::Return(None));

    let df = compute_dominance_frontiers(&f);
    // `body`'s frontier is {header} — body is a pred of header
    // via the back edge, but doesn't dominate header.
    assert_eq!(frontier(&df, body), HashSet::from([header]));
    // `header`'s frontier is {header} too — header is a join
    // point (entry + body both branch into it), and though
    // header dominates itself, it does NOT *strictly* dominate
    // itself, so header is in its own frontier.
    assert_eq!(frontier(&df, header), HashSet::from([header]));
}

/// `find_promotable-style` usage: verify the idom map is what
/// mem2reg would read. Nested if: both branches store to %a;
/// both merge blocks need a block param. `iterated_dominance_frontier`
/// is effectively DF applied transitively over the store set.
#[test]
fn iterated_dominance_frontier_via_repeated_df() {
    // Build:
    //    entry
    //     / \
    //    a   b
    //    |  / \
    //    | c   d
    //    |  \ /
    //    |   m1
    //    \  /
    //     m2
    let mut f = Function::new("f".into(), vec![], IrType::Void);
    let a = f.create_block("a");
    let b = f.create_block("b");
    let c = f.create_block("c");
    let d = f.create_block("d");
    let m1 = f.create_block("m1");
    let m2 = f.create_block("m2");

    let entry = f.entry;
    let c0 = f.next_value_id();
    f.block_mut(entry).insts.push(Inst {
        id: c0, kind: InstKind::ConstBool(true),
        ty: IrType::Bool, span: dummy_span(),
    });
    f.block_mut(entry).terminator = Some(Terminator::CondBranch {
        cond: c0, true_dest: a, true_args: vec![],
        false_dest: b, false_args: vec![],
    });
    let c1 = f.next_value_id();
    f.block_mut(b).insts.push(Inst {
        id: c1, kind: InstKind::ConstBool(true),
        ty: IrType::Bool, span: dummy_span(),
    });
    f.block_mut(b).terminator = Some(Terminator::CondBranch {
        cond: c1, true_dest: c, true_args: vec![],
        false_dest: d, false_args: vec![],
    });
    f.block_mut(c).terminator = Some(Terminator::Branch(m1, vec![]));
    f.block_mut(d).terminator = Some(Terminator::Branch(m1, vec![]));
    f.block_mut(m1).terminator = Some(Terminator::Branch(m2, vec![]));
    f.block_mut(a).terminator = Some(Terminator::Branch(m2, vec![]));
    f.block_mut(m2).terminator = Some(Terminator::Return(None));

    let df = compute_dominance_frontiers(&f);
    // c and d both flow into m1; DF(c) = DF(d) = {m1}
    assert_eq!(frontier(&df, c), HashSet::from([m1]));
    assert_eq!(frontier(&df, d), HashSet::from([m1]));
    // a and m1 both flow into m2; DF(a) = DF(m1) = {m2}
    assert_eq!(frontier(&df, a), HashSet::from([m2]));
    assert_eq!(frontier(&df, m1), HashSet::from([m2]));
    // b dominates c, d, m1 but not m2 — b is in df of m2 because
    // it dominates a predecessor of m2 (m1) but not m2 itself.
    assert_eq!(frontier(&df, b), HashSet::from([m2]));
    // The dominator tree looks like:
    //   entry → {a, b, m2}
    //   b     → {c, d, m1}
    let idoms = compute_immediate_dominators(&f);
    assert_eq!(idom(&idoms, a), entry);
    assert_eq!(idom(&idoms, b), entry);
    assert_eq!(idom(&idoms, m2), entry);
    assert_eq!(idom(&idoms, c), b);
    assert_eq!(idom(&idoms, d), b);
    assert_eq!(idom(&idoms, m1), b);
}

// ----- Edge case: single-block function -----
//
// A function whose entry block is also its only block must
// produce an empty idom map (entry has no idom) and a single
// empty dominance frontier entry.
#[test]
fn single_block_function_has_no_idom() {
    let mut f = Function::new("f".into(), vec![], IrType::Void);
    f.block_mut(f.entry).terminator = Some(Terminator::Return(None));

    let idoms = compute_immediate_dominators(&f);
    assert!(idoms.is_empty(), "single-block function should have no idoms");

    let df = compute_dominance_frontiers(&f);
    // Entry is reachable, so it has an entry in the DF map, but
    // its frontier is empty (no successors, no join points).
    assert_eq!(df.len(), 1);
    assert!(frontier(&df, f.entry).is_empty());

    let order = dominator_tree_preorder(&f);
    assert_eq!(order, vec![f.entry]);
}

// ----- Edge case: self-loop on entry -----
//
// The entry block has itself as a successor. Entry still has no
// idom (it's the root), and entry is its own join point (1 pred,
// itself), so it should NOT appear in any DF set.
#[test]
fn self_loop_on_entry() {
    let mut f = Function::new("f".into(), vec![], IrType::Void);
    // entry → entry (always loops, no exit). Verifier doesn't run
    // here so an unreachable terminator is fine for the dom math.
    let cond = f.next_value_id();
    f.block_mut(f.entry).insts.push(Inst {
        id: cond,
        kind: InstKind::ConstBool(true),
        ty: IrType::Bool,
        span: dummy_span(),
    });
    let exit = f.create_block("exit");
    f.block_mut(f.entry).terminator = Some(Terminator::CondBranch {
        cond,
        true_dest: f.entry, true_args: vec![],
        false_dest: exit, false_args: vec![],
    });
    f.block_mut(exit).terminator = Some(Terminator::Return(None));

    let idoms = compute_immediate_dominators(&f);
    assert!(!idoms.contains_key(&f.entry), "entry has no idom even with a self-edge");
    assert_eq!(idom(&idoms, exit), f.entry);

    let df = compute_dominance_frontiers(&f);
    // The self-edge gives entry one in-edge (from itself); plus
    // the implicit "function entry edge" doesn't count, so entry
    // has 1 reachable pred. Not a join point — entry ∉ any DF.
    for b in df.keys() {
        assert!(!frontier(&df, *b).contains(&f.entry),
            "entry should not appear in DF[{:?}]", b);
    }
}

// ----- Edge case: self-loop on a non-entry block -----
//
// entry → b → b   (b has both an entry edge and a self-edge,
//                  so 2 reachable preds → join point.)
// CFRWZ says b ∈ DF(b) here: b dominates itself (a pred of
// itself) but does not strictly dominate itself.
#[test]
fn self_loop_on_non_entry_block_is_in_own_df() {
    let mut f = Function::new("f".into(), vec![], IrType::Void);
    let b = f.create_block("b");
    let exit = f.create_block("exit");

    f.block_mut(f.entry).terminator = Some(Terminator::Branch(b, vec![]));

    let cond = f.next_value_id();
    f.block_mut(b).insts.push(Inst {
        id: cond,
        kind: InstKind::ConstBool(true),
        ty: IrType::Bool,
        span: dummy_span(),
    });
    f.block_mut(b).terminator = Some(Terminator::CondBranch {
        cond,
        true_dest: b, true_args: vec![],
        false_dest: exit, false_args: vec![],
    });
    f.block_mut(exit).terminator = Some(Terminator::Return(None));

    let df = compute_dominance_frontiers(&f);
    assert_eq!(frontier(&df, b), HashSet::from([b]),
        "b's self-edge puts b in its own dominance frontier");
    let idoms = compute_immediate_dominators(&f);
    assert_eq!(idom(&idoms, b), f.entry);
    assert_eq!(idom(&idoms, exit), b);
}

// ----- Edge case: irreducible CFG -----
//
//   entry → a → b → a   (cross-edge into the loop)
//   entry → b
//
// Both `a` and `b` have 2 preds, neither dominates the other,
// and the loop has no single header. The dom math should still
// produce a sensible answer: entry idom both, and each is in
// the other's dominance frontier.
#[test]
fn irreducible_cfg_has_consistent_doms() {
    let mut f = Function::new("f".into(), vec![], IrType::Void);
    let a = f.create_block("a");
    let b = f.create_block("b");
    let exit = f.create_block("exit");

    // entry → cond ? a : b
    let c0 = f.next_value_id();
    f.block_mut(f.entry).insts.push(Inst {
        id: c0, kind: InstKind::ConstBool(true),
        ty: IrType::Bool, span: dummy_span(),
    });
    f.block_mut(f.entry).terminator = Some(Terminator::CondBranch {
        cond: c0,
        true_dest: a, true_args: vec![],
        false_dest: b, false_args: vec![],
    });

    // a → b
    f.block_mut(a).terminator = Some(Terminator::Branch(b, vec![]));

    // b → cond ? a : exit (so b → a is a back edge into a, but
    //                      a is not the only header — entry → b
    //                      bypasses it).
    let c1 = f.next_value_id();
    f.block_mut(b).insts.push(Inst {
        id: c1, kind: InstKind::ConstBool(true),
        ty: IrType::Bool, span: dummy_span(),
    });
    f.block_mut(b).terminator = Some(Terminator::CondBranch {
        cond: c1,
        true_dest: a, true_args: vec![],
        false_dest: exit, false_args: vec![],
    });
    f.block_mut(exit).terminator = Some(Terminator::Return(None));

    let idoms = compute_immediate_dominators(&f);
    // Neither a nor b dominates the other; entry idoms both.
    assert_eq!(idom(&idoms, a), f.entry);
    assert_eq!(idom(&idoms, b), f.entry);
    assert_eq!(idom(&idoms, exit), b);

    let df = compute_dominance_frontiers(&f);
    // a dominates a (a pred of b) → b ∈ DF(a) because a doesn't
    // strictly dominate b.
    assert!(frontier(&df, a).contains(&b), "b should be in DF(a)");
    // b dominates b (a pred of a) → a ∈ DF(b).
    assert!(frontier(&df, b).contains(&a), "a should be in DF(b)");

    // dominator_tree_preorder must terminate and visit every
    // reachable block once (no infinite loop on the irreducible
    // back edge).
    let order = dominator_tree_preorder(&f);
    assert_eq!(order.len(), 4); // entry, a, b, exit
    assert_eq!(order[0], f.entry);
}
