use armfortas::ids::{IdMap, IdSet};
use armfortas::ir::cfg::{predecessors, prune_unreachable, reachable_blocks, successors};
use armfortas::ir::dom::{compute_dominators, compute_immediate_dominators};
use armfortas::ir::domtree::dominator_tree_preorder;
use armfortas::ir::inst::{
    BlockId, BlockParam, Function, Inst, InstKind, Module, Param, Terminator, ValueId,
};
use armfortas::ir::loops::find_natural_loops;
use armfortas::ir::types::{FloatWidth, IntWidth, IrType};
use armfortas::ir::verify::{verify_function, verify_module, VerifyError};
use armfortas::lexer::{Position, Span};
use armfortas::opt::clone::clone_loop;
use armfortas::target::TargetLayout;

fn span() -> Span {
    let p = Position { line: 1, col: 1 };
    Span { file_id: 0, start: p, end: p }
}

fn push(f: &mut Function, b: BlockId, kind: InstKind, ty: IrType) -> ValueId {
    let id = f.next_value_id();
    f.register_type(id, ty.clone());
    f.block_mut(b).insts.push(Inst { id, kind, ty, span: span() });
    id
}

fn param(name: &str, id: u32, ty: IrType) -> Param {
    Param { name: name.into(), ty, id: ValueId(id), fortran_noalias: false }
}

fn cond(c: ValueId, t: BlockId, e: BlockId) -> Option<Terminator> {
    Some(Terminator::CondBranch {
        cond: c,
        true_dest: t,
        true_args: vec![],
        false_dest: e,
        false_args: vec![],
    })
}

/// entry -> left | right -> join, and a block that nothing goes to.
fn diamond() -> (Function, [BlockId; 5]) {
    let mut f = Function::new("d".into(), vec![param("c", 0, IrType::Bool)], IrType::Void);
    let left = f.create_block("left");
    let right = f.create_block("right");
    let join = f.create_block("join");
    let alone = f.create_block("alone");
    let entry = f.entry;
    f.block_mut(entry).terminator = cond(ValueId(0), left, right);
    f.block_mut(left).terminator = Some(Terminator::Branch(join, vec![]));
    f.block_mut(right).terminator = Some(Terminator::Branch(join, vec![]));
    f.block_mut(join).terminator = Some(Terminator::Return(None));
    f.block_mut(alone).terminator = Some(Terminator::Branch(join, vec![]));
    (f, [entry, left, right, join, alone])
}

/// entry -> header(i) -> body -> header | exit.
fn counting_loop() -> (Function, [BlockId; 4], ValueId) {
    let mut f = Function::new("l".into(), vec![param("c", 0, IrType::Bool)], IrType::Void);
    let header = f.create_block("header");
    let body = f.create_block("body");
    let exit = f.create_block("exit");
    let entry = f.entry;
    let i32t = IrType::Int(IntWidth::I32);
    let zero = push(&mut f, entry, InstKind::ConstInt(0, IntWidth::I32), i32t.clone());
    f.block_mut(entry).terminator = Some(Terminator::Branch(header, vec![zero]));
    let i = f.next_value_id();
    f.register_type(i, i32t.clone());
    f.block_mut(header).params.push(BlockParam { id: i, ty: i32t.clone() });
    f.block_mut(header).terminator = cond(ValueId(0), body, exit);
    let next = push(&mut f, body, InstKind::IAdd(i, i), i32t);
    f.block_mut(body).terminator = Some(Terminator::Branch(header, vec![next]));
    f.block_mut(exit).terminator = Some(Terminator::Return(None));
    (f, [entry, header, body, exit], i)
}

fn members(s: &IdSet<BlockId>) -> Vec<u32> {
    let mut v: Vec<u32> = s.items().iter().map(|b| b.0).collect();
    v.sort();
    v
}

fn numbers(bs: &[BlockId]) -> Vec<u32> {
    let mut v: Vec<u32> = bs.iter().map(|b| b.0).collect();
    v.sort();
    v
}

#[test]
fn a_join_is_dominated_by_what_comes_before_the_split() {
    let (f, [entry, left, right, join, _]) = diamond();
    let doms = compute_dominators(&f);
    assert_eq!(members(doms.get(&entry).unwrap()), numbers(&[entry]));
    assert_eq!(members(doms.get(&left).unwrap()), numbers(&[entry, left]));
    assert_eq!(members(doms.get(&right).unwrap()), numbers(&[entry, right]));
    assert_eq!(members(doms.get(&join).unwrap()), numbers(&[entry, join]));
    let idoms = compute_immediate_dominators(&f);
    assert_eq!(idoms.get(&join), Some(&entry));
    assert_eq!(idoms.get(&left), Some(&entry));
}

#[test]
fn a_preorder_walk_meets_every_reachable_block_once_after_its_dominator() {
    let (f, [entry, left, right, join, _]) = diamond();
    let order = dominator_tree_preorder(&f);
    assert_eq!(order[0], entry);
    assert_eq!(numbers(&order), numbers(&[entry, left, right, join]));
}

#[test]
fn successors_and_predecessors_are_the_same_edges() {
    let (f, [entry, left, right, join, alone]) = diamond();
    assert_eq!(successors(&f, entry), vec![left, right]);
    let preds = predecessors(&f);
    assert_eq!(numbers(preds.get(&join).unwrap()), numbers(&[left, right, alone]));
    assert_eq!(members(&reachable_blocks(&f)), numbers(&[entry, left, right, join]));
}

#[test]
fn pruning_drops_what_cannot_be_reached_and_then_nothing() {
    let (mut f, [entry, left, right, join, _]) = diamond();
    assert!(prune_unreachable(&mut f));
    let left_over: Vec<BlockId> = f.blocks.iter().map(|b| b.id).collect();
    assert_eq!(left_over, vec![entry, left, right, join]);
    assert_eq!(members(&reachable_blocks(&f)), numbers(&[entry, left, right, join]));
    assert!(!prune_unreachable(&mut f));
}

#[test]
fn pruning_keeps_a_sound_function_sound() {
    let (mut f, _) = diamond();
    assert!(verify_function(&f).is_empty());
    prune_unreachable(&mut f);
    assert!(verify_function(&f).is_empty());
}

#[test]
fn a_loop_is_its_header_and_the_way_back() {
    let (f, [entry, header, body, _], _) = counting_loop();
    let loops = find_natural_loops(&f);
    assert_eq!(loops.len(), 1);
    assert_eq!(loops[0].header, header);
    assert_eq!(loops[0].latches, vec![body]);
    assert_eq!(members(&loops[0].body), numbers(&[header, body]));
    assert!(!loops[0].body.contains(&entry));
    let doms = compute_dominators(&f);
    for b in loops[0].body.items() {
        assert!(doms.get(b).unwrap().contains(&header));
    }
}

#[test]
fn cloning_a_loop_copies_its_blocks_under_fresh_names() {
    let (mut f, [_, header, body, _], i) = counting_loop();
    let lp = find_natural_loops(&f);
    let before = f.blocks.len();
    let (blocks, values): (IdMap<BlockId, BlockId>, IdMap<ValueId, ValueId>) =
        clone_loop(&mut f, &lp[0].body);
    assert_eq!(f.blocks.len(), before + 2);
    let new_header = *blocks.get(&header).unwrap();
    let new_body = *blocks.get(&body).unwrap();
    let new_i = *values.get(&i).unwrap();
    assert_eq!(f.block(new_header).name, "header_clone");
    assert_eq!(f.block(new_header).params[0].id, new_i);
    match &f.block(new_body).insts[0].kind {
        InstKind::IAdd(a, b) => assert_eq!((*a, *b), (new_i, new_i)),
        other => panic!("expected an addition, got {:?}", other),
    }
    match &f.block(new_body).terminator {
        Some(Terminator::Branch(to, args)) => {
            assert_eq!(*to, new_header);
            assert_eq!(args.len(), 1);
        }
        other => panic!("expected a branch, got {:?}", other),
    }
}

#[test]
fn sound_functions_have_no_findings() {
    let (f, _, _) = counting_loop();
    assert!(verify_function(&f).is_empty());
    let mut m = Module::new("m".into(), TargetLayout::LP64);
    m.add_function(f);
    assert!(verify_module(&m).is_empty());
}

#[test]
fn a_value_must_be_defined_on_every_way() {
    let (mut f, [_, left, _, join, _]) = diamond();
    let i32t = IrType::Int(IntWidth::I32);
    let v = push(&mut f, left, InstKind::ConstInt(1, IntWidth::I32), i32t.clone());
    push(&mut f, join, InstKind::IAdd(v, v), i32t);
    assert!(!verify_function(&f).is_empty());
}

#[test]
fn a_value_must_be_defined_before_it_is_read() {
    let mut f = Function::new("f".into(), vec![], IrType::Void);
    let entry = f.entry;
    let i32t = IrType::Int(IntWidth::I32);
    let later = ValueId(f.next_value + 1);
    push(&mut f, entry, InstKind::INeg(later), i32t.clone());
    push(&mut f, entry, InstKind::ConstInt(1, IntWidth::I32), i32t);
    f.block_mut(entry).terminator = Some(Terminator::Return(None));
    assert!(!verify_function(&f).is_empty());
}

#[test]
fn types_that_disagree_are_found() {
    let mut f = Function::new("f".into(), vec![], IrType::Void);
    let entry = f.entry;
    let a = push(&mut f, entry, InstKind::ConstInt(1, IntWidth::I32), IrType::Int(IntWidth::I32));
    let b = push(&mut f, entry, InstKind::ConstInt(1, IntWidth::I64), IrType::Int(IntWidth::I64));
    push(&mut f, entry, InstKind::IAdd(a, b), IrType::Int(IntWidth::I32));
    f.block_mut(entry).terminator = Some(Terminator::Return(None));
    assert!(!verify_function(&f).is_empty());
}

#[test]
fn a_stale_type_is_found_until_the_cache_is_rebuilt() {
    let mut f = Function::new("f".into(), vec![], IrType::Void);
    let entry = f.entry;
    let a = push(&mut f, entry, InstKind::ConstInt(1, IntWidth::I32), IrType::Int(IntWidth::I32));
    f.block_mut(entry).terminator = Some(Terminator::Return(None));
    f.register_type(a, IrType::Float(FloatWidth::F64));
    assert!(!verify_function(&f).is_empty());
    f.rebuild_type_cache();
    assert!(verify_function(&f).is_empty());
}

#[test]
fn findings_are_displayed_with_their_origin() {
    let e = VerifyError { msg: "block 'a' has no terminator".into() };
    assert_eq!(e.display(), "IR verify: block 'a' has no terminator");
}

#[test]
fn a_block_without_an_end_is_named() {
    let f = Function::new("f".into(), vec![], IrType::Void);
    let found = verify_function(&f);
    assert!(found.iter().any(|e| e.msg.contains("has no terminator")), "{:?}", found.len());
}

#[test]
fn sizes_of_types_follow_the_layout() {
    let layout = TargetLayout::LP64;
    assert_eq!(IrType::Int(IntWidth::I16).try_size_bytes(&layout).unwrap(), 2);
    assert_eq!(IrType::Ptr(Box::new(IrType::Void)).try_size_bytes(&layout).unwrap(), 8);
    let row = IrType::Array(Box::new(IrType::Float(FloatWidth::F64)), 10);
    assert_eq!(row.try_size_bytes(&layout).unwrap(), 80);
    let huge = IrType::Array(Box::new(row), u64::MAX);
    assert!(huge.try_size_bytes(&layout).is_err());
}
