use pliron::basic_block::{OpsInBlock, RegionLinks};
use pliron::context::{AttrPtr, BasicBlock, BlockPtr, Context, OpPtr, Operation, RegionPtr, TypePtr, Value};

fn ty(i: usize) -> TypePtr {
    TypePtr { idx: i }
}

fn forward_blocks(ctx: &Context, r: RegionPtr) -> Vec<BlockPtr> {
    let mut out = Vec::new();
    let mut cur = ctx.region_ends(r).0;
    while let Some(b) = cur {
        out.push(b);
        cur = ctx.region_links(b).next_block;
    }
    out
}

fn backward_blocks(ctx: &Context, r: RegionPtr) -> Vec<BlockPtr> {
    let mut out = Vec::new();
    let mut cur = ctx.region_ends(r).1;
    while let Some(b) = cur {
        out.push(b);
        cur = ctx.region_links(b).prev_block;
    }
    out
}

fn forward_ops(ctx: &Context, b: BlockPtr) -> Vec<OpPtr> {
    let mut it = ctx.iter(b);
    let mut out = Vec::new();
    while let Some(o) = it.next(ctx) {
        out.push(o);
    }
    out
}

fn backward_ops(ctx: &Context, b: BlockPtr) -> Vec<OpPtr> {
    let mut it = ctx.iter(b);
    let mut out = Vec::new();
    while let Some(o) = it.next_back(ctx) {
        out.push(o);
    }
    out
}

fn block_with_ops(ctx: &mut Context, n: usize) -> (BlockPtr, Vec<OpPtr>) {
    let b = BasicBlock::new(ctx, None, vec![]);
    let mut ops = Vec::new();
    for _ in 0..n {
        let o = Operation::new(ctx, vec![], 1);
        ctx.insert_op_at_back(b, o);
        ops.push(o);
    }
    (b, ops)
}

#[test]
fn region_insert_and_remove_blocks() {
    let mut ctx = Context::new();
    let r = ctx.new_region();
    let b0 = BasicBlock::new(&mut ctx, None, vec![]);
    ctx.insert_block_at_back(r, b0);
    assert_eq!(ctx.region_ends(r), (Some(b0), Some(b0)));
    let b1 = BasicBlock::new(&mut ctx, Some("entry".to_string()), vec![ty(7)]);
    ctx.insert_block_after(b1, b0);
    assert_eq!(forward_blocks(&ctx, r), vec![b0, b1]);
    assert_eq!(backward_blocks(&ctx, r), vec![b1, b0]);
    ctx.remove_block(b0);
    assert_eq!(ctx.region_ends(r), (Some(b1), Some(b1)));
    assert_eq!(ctx.region_links(b0).parent_region, None);
    assert_eq!(ctx.region_links(b0), RegionLinks::new_unlinked());
    assert_eq!(ctx.region_links(b1).parent_region, Some(r));
}

#[test]
fn replace_all_uses_with_two_uses() {
    let mut ctx = Context::new();
    let b = BasicBlock::new(&mut ctx, None, vec![ty(1), ty(2)]);
    let v = ctx.deref_block(b).get_argument(0).unwrap();
    let w = ctx.deref_block(b).get_argument(1).unwrap();
    let u1 = Operation::new(&mut ctx, vec![v], 0);
    let u2 = Operation::new(&mut ctx, vec![v], 0);
    assert_eq!(v.get_uses(&ctx).len(), 2);
    v.replace_all_uses_with(&mut ctx, w);
    assert_eq!(v.get_uses(&ctx).len(), 0);
    assert_eq!(w.get_uses(&ctx).len(), 2);
    assert_eq!(ctx.get_operand(u1, 0).def, w);
    assert_eq!(ctx.get_operand(u2, 0).def, w);
}

#[test]
fn replace_all_uses_with_appends_to_existing_uses() {
    let mut ctx = Context::new();
    let def = Operation::new(&mut ctx, vec![], 2);
    let v = Value::OpResult { op: def, res_idx: 0 };
    let w = Value::OpResult { op: def, res_idx: 1 };
    let a = Operation::new(&mut ctx, vec![w], 0);
    let c = Operation::new(&mut ctx, vec![v, w, v], 0);
    assert_eq!(v.get_uses(&ctx).len(), 2);
    assert_eq!(w.get_uses(&ctx).len(), 2);
    v.replace_all_uses_with(&mut ctx, w);
    assert_eq!(v.get_uses(&ctx).len(), 0);
    assert_eq!(w.get_uses(&ctx).len(), 4);
    for k in 0..3 {
        assert_eq!(ctx.get_operand(c, k).def, w);
    }
    assert_eq!(ctx.get_operand(a, 0).def, w);
    let uses = w.get_uses(&ctx);
    assert_eq!(uses[2].op, c);
    assert_eq!(uses[2].opd_idx, 0);
    assert_eq!(uses[3].op, c);
    assert_eq!(uses[3].opd_idx, 2);
    assert_eq!(ctx.get_operand(c, 2).token.idx, 3);
}

#[test]
fn replace_all_uses_with_no_uses() {
    let mut ctx = Context::new();
    let b = BasicBlock::new(&mut ctx, None, vec![ty(1), ty(1)]);
    let v = ctx.deref_block(b).get_argument(0).unwrap();
    let w = ctx.deref_block(b).get_argument(1).unwrap();
    let o = Operation::new(&mut ctx, vec![w], 0);
    v.replace_all_uses_with(&mut ctx, w);
    assert_eq!(v.get_uses(&ctx).len(), 0);
    assert_eq!(w.get_uses(&ctx).len(), 1);
    assert_eq!(ctx.get_operand(o, 0).def, w);
}

#[test]
fn operation_registers_uses_in_order() {
    let mut ctx = Context::new();
    let b = BasicBlock::new(&mut ctx, None, vec![ty(3)]);
    let v = ctx.deref_block(b).get_argument(0).unwrap();
    let o = Operation::new(&mut ctx, vec![v, v], 1);
    assert_eq!(ctx.get_num_operands(o), 2);
    let uses = v.get_uses(&ctx);
    assert_eq!(uses.len(), 2);
    assert_eq!((uses[0].op, uses[0].opd_idx), (o, 0));
    assert_eq!((uses[1].op, uses[1].opd_idx), (o, 1));
    assert_eq!(ctx.get_operand(o, 1).token.idx, 1);
    let res = Value::OpResult { op: o, res_idx: 0 };
    assert_eq!(res.get_uses(&ctx).len(), 0);
    assert_eq!(res.get_defining_op(), Some(o));
    assert_eq!(v.get_defining_op(), None);
    assert_eq!(v.get_def_index(), 0);
    assert_eq!(v.get_parent_block(&ctx), Some(b));
    assert_eq!(res.get_parent_block(&ctx), None);
    ctx.insert_op_at_back(b, o);
    assert_eq!(res.get_parent_block(&ctx), Some(b));
}

#[test]
fn argument_identity() {
    let mut ctx = Context::new();
    let b = BasicBlock::new(&mut ctx, None, vec![ty(4), ty(5), ty(6)]);
    let blk = ctx.deref_block(b);
    assert_eq!(blk.get_num_arguments(), 3);
    for i in 0..3 {
        assert_eq!(blk.get_argument(i), Some(Value::BlockArgument { block: b, arg_idx: i }));
        let a = blk.get_argument_ref(i).unwrap();
        assert_eq!(a.get_def_block(), b);
        assert_eq!(a.get_arg_idx(), i);
        assert_eq!(a.get_type(), ty(4 + i));
    }
    assert_eq!(blk.get_argument(3), None);
    assert!(blk.get_argument_ref(3).is_none());
    assert_eq!(blk.get_self_ptr(), b);
}

#[test]
fn block_without_arguments() {
    let mut ctx = Context::new();
    let b = BasicBlock::new(&mut ctx, None, vec![]);
    assert_eq!(ctx.deref_block(b).get_num_arguments(), 0);
    assert_eq!(ctx.deref_block(b).get_argument(0), None);
}

#[test]
fn iterator_interleavings_visit_each_once() {
    let mut ctx = Context::new();
    let (b, ops) = block_with_ops(&mut ctx, 4);
    for mask in 0u32..16 {
        let mut it = ctx.iter(b);
        let mut front = Vec::new();
        let mut back = Vec::new();
        for step in 0..4 {
            if mask & (1 << step) != 0 {
                front.push(it.next(&ctx).unwrap());
            } else {
                back.push(it.next_back(&ctx).unwrap());
            }
        }
        assert_eq!(it.next(&ctx), None);
        assert_eq!(it.next_back(&ctx), None);
        back.reverse();
        front.extend(back);
        assert_eq!(front, ops);
    }
}

#[test]
fn iterator_on_empty_block() {
    let mut ctx = Context::new();
    let (b, _) = block_with_ops(&mut ctx, 0);
    let mut it = ctx.iter(b);
    assert_eq!(it.next(&ctx), None);
    assert_eq!(it.next_back(&ctx), None);
    assert_eq!(ctx.iter(b).last(&ctx), None);
    assert_eq!(ctx.ops_list(b), OpsInBlock::new_empty());
}

#[test]
fn iterator_last() {
    let mut ctx = Context::new();
    let (b, ops) = block_with_ops(&mut ctx, 3);
    assert_eq!(ctx.iter(b).last(&ctx), Some(ops[2]));
    let ends = ctx.ops_list(b);
    assert_eq!(ends.first, Some(ops[0]));
    assert_eq!(ends.last, Some(ops[2]));
}

#[test]
fn list_integrity_after_edits() {
    let mut ctx = Context::new();
    let (b, ops) = block_with_ops(&mut ctx, 3);
    let x = Operation::new(&mut ctx, vec![], 0);
    let y = Operation::new(&mut ctx, vec![], 0);
    ctx.insert_op_before(x, ops[1]);
    ctx.insert_op_at_front(b, y);
    assert_eq!(forward_ops(&ctx, b), vec![y, ops[0], x, ops[1], ops[2]]);
    ctx.remove_op(ops[1]);
    ctx.remove_op(y);
    ctx.insert_op_after(y, ops[2]);
    let fwd = forward_ops(&ctx, b);
    let mut bwd = backward_ops(&ctx, b);
    bwd.reverse();
    assert_eq!(fwd, vec![ops[0], x, ops[2], y]);
    assert_eq!(fwd, bwd);
    for o in &fwd {
        assert_eq!(ctx.get_op_parent(*o), Some(b));
    }
    assert_eq!(ctx.get_op_parent(ops[1]), None);
}

#[test]
fn moving_an_operation_between_blocks() {
    let mut ctx = Context::new();
    let (b0, ops0) = block_with_ops(&mut ctx, 2);
    let (b1, ops1) = block_with_ops(&mut ctx, 1);
    ctx.remove_op(ops0[0]);
    ctx.insert_op_at_front(b1, ops0[0]);
    assert_eq!(forward_ops(&ctx, b0), vec![ops0[1]]);
    assert_eq!(forward_ops(&ctx, b1), vec![ops0[0], ops1[0]]);
    assert_eq!(ctx.get_op_parent(ops0[0]), Some(b1));
}

#[test]
fn dealloc_block_cascades_to_operations() {
    let mut ctx = Context::new();
    let r = ctx.new_region();
    let (b, ops) = block_with_ops(&mut ctx, 3);
    let (other, other_ops) = block_with_ops(&mut ctx, 1);
    ctx.insert_block_at_back(r, b);
    ctx.insert_block_at_front(r, other);
    let n = ctx.dealloc_block(b);
    assert_eq!(n, 3);
    for o in &ops {
        assert!(!ctx.is_op_live(*o));
        assert_eq!(ctx.get_op_parent(*o), None);
    }
    assert!(!ctx.is_block_live(b));
    assert!(ctx.is_block_live(other));
    assert!(ctx.is_op_live(other_ops[0]));
    assert_eq!(ctx.region_ends(r), (Some(other), Some(other)));
    assert_eq!(ctx.region_links(b).parent_region, None);
}

#[test]
fn dealloc_empty_block() {
    let mut ctx = Context::new();
    let (b, _) = block_with_ops(&mut ctx, 0);
    assert_eq!(ctx.dealloc_block(b), 0);
    assert!(!ctx.is_block_live(b));
}

#[test]
fn dealloc_single_operation() {
    let mut ctx = Context::new();
    let (b, ops) = block_with_ops(&mut ctx, 3);
    ctx.dealloc_op(ops[1]);
    assert!(!ctx.is_op_live(ops[1]));
    assert_eq!(forward_ops(&ctx, b), vec![ops[0], ops[2]]);
}

#[test]
fn region_insert_before_and_front() {
    let mut ctx = Context::new();
    let r = ctx.new_region();
    let a = BasicBlock::new(&mut ctx, None, vec![]);
    let b = BasicBlock::new(&mut ctx, None, vec![]);
    let c = BasicBlock::new(&mut ctx, None, vec![]);
    ctx.insert_block_at_front(r, a);
    ctx.insert_block_before(b, a);
    ctx.insert_block_at_back(r, c);
    assert_eq!(forward_blocks(&ctx, r), vec![b, a, c]);
    assert_eq!(backward_blocks(&ctx, r), vec![c, a, b]);
}

#[test]
fn block_and_argument_names() {
    let mut ctx = Context::new();
    let mut blocks = Vec::new();
    for _ in 0..12 {
        blocks.push(BasicBlock::new(&mut ctx, None, vec![ty(0)]));
    }
    let labelled = BasicBlock::new(&mut ctx, Some("entry".to_string()), vec![ty(0), ty(1)]);
    assert_eq!(ctx.deref_block(blocks[0]).get_name(), "block0");
    assert_eq!(ctx.deref_block(blocks[11]).get_name(), "block11");
    assert_eq!(ctx.deref_block(labelled).get_name(), "entry");
    let arg = ctx.deref_block(labelled).get_argument_ref(1).unwrap();
    assert_eq!(arg.get_name(&ctx, None), "entry[1]");
    assert_eq!(arg.get_name(&ctx, Some("x".to_string())), "x");
    let arg0 = ctx.deref_block(blocks[10]).get_argument_ref(0).unwrap();
    assert_eq!(arg0.get_name(&ctx, None), "block10[0]");
}

#[test]
fn decimal_notation() {
    let mut s = String::from("n=");
    pliron::basic_block::push_decimal(&mut s, 0);
    assert_eq!(s, "n=0");
    let mut t = String::new();
    pliron::basic_block::push_decimal(&mut t, 1234567890);
    assert_eq!(t, "1234567890");
}

#[test]
fn block_attributes() {
    let mut ctx = Context::new();
    let b = BasicBlock::new(&mut ctx, None, vec![]);
    let c = BasicBlock::new(&mut ctx, None, vec![]);
    assert_eq!(ctx.get_attribute(b, "align"), None);
    assert_eq!(ctx.set_attribute(b, "align".to_string(), AttrPtr { idx: 4 }), None);
    assert_eq!(ctx.get_attribute(b, "align"), Some(AttrPtr { idx: 4 }));
    assert_eq!(ctx.get_attribute(c, "align"), None);
    assert_eq!(ctx.set_attribute(b, "align".to_string(), AttrPtr { idx: 8 }), Some(AttrPtr { idx: 4 }));
    assert_eq!(ctx.get_attribute(b, "align"), Some(AttrPtr { idx: 8 }));
    ctx.set_attribute(b, "cold".to_string(), AttrPtr { idx: 1 });
    assert_eq!(ctx.remove_attribute(b, "align"), Some(AttrPtr { idx: 8 }));
    assert_eq!(ctx.get_attribute(b, "align"), None);
    assert_eq!(ctx.get_attribute(b, "cold"), Some(AttrPtr { idx: 1 }));
    assert_eq!(ctx.remove_attribute(b, "align"), None);
}

#[test]
fn dealloc_region_cascades() {
    let mut ctx = Context::new();
    let r = ctx.new_region();
    let (b0, ops0) = block_with_ops(&mut ctx, 2);
    let (b1, ops1) = block_with_ops(&mut ctx, 3);
    let (outside, outside_ops) = block_with_ops(&mut ctx, 1);
    ctx.insert_block_at_back(r, b0);
    ctx.insert_block_at_back(r, b1);
    assert_eq!(ctx.dealloc_region(r), 2);
    for o in ops0.iter().chain(ops1.iter()) {
        assert!(!ctx.is_op_live(*o));
    }
    assert!(!ctx.is_block_live(b0));
    assert!(!ctx.is_block_live(b1));
    assert!(ctx.is_block_live(outside));
    assert!(ctx.is_op_live(outside_ops[0]));
    assert_eq!(ctx.region_ends(r), (None, None));
}

#[test]
fn new_handles_are_sequential() {
    let mut ctx = Context::new();
    let r0 = ctx.new_region();
    let r1 = ctx.new_region();
    assert_eq!((r0.idx, r1.idx), (0, 1));
    let o = Operation::new(&mut ctx, vec![], 0);
    assert_eq!(o.idx, 0);
    assert!(ctx.is_op_live(o));
    assert_eq!(ctx.get_op_parent(o), None);
    let b: BlockPtr = BasicBlock::new(&mut ctx, None, vec![]);
    assert_eq!(b.idx, 0);
    assert_eq!(ctx.region_ends(r0), (None, None));
}

#[test]
fn dealloc_op_severs_its_uses() {
    let mut ctx = Context::new();
    let b = BasicBlock::new(&mut ctx, None, vec![ty(0), ty(0)]);
    let v = ctx.deref_block(b).get_argument(0).unwrap();
    let w = ctx.deref_block(b).get_argument(1).unwrap();
    let a = Operation::new(&mut ctx, vec![v, w, v], 0);
    let c = Operation::new(&mut ctx, vec![v], 0);
    ctx.insert_op_at_back(b, a);
    assert_eq!(v.get_uses(&ctx).len(), 3);
    ctx.dealloc_op(a);
    let uses = v.get_uses(&ctx);
    assert_eq!(uses.len(), 1);
    assert_eq!((uses[0].op, uses[0].opd_idx), (c, 0));
    assert_eq!(w.get_uses(&ctx).len(), 0);
    assert_eq!(ctx.get_op_parent(a), None);
}

#[test]
fn remove_references_keeps_other_uses() {
    let mut ctx = Context::new();
    let def = Operation::new(&mut ctx, vec![], 1);
    let v = Value::OpResult { op: def, res_idx: 0 };
    let a = Operation::new(&mut ctx, vec![v], 0);
    let c = Operation::new(&mut ctx, vec![v, v], 0);
    ctx.dealloc_op(c);
    ctx.remove_references(c);
    let uses = v.get_uses(&ctx);
    assert_eq!(uses.len(), 1);
    assert_eq!(uses[0].op, a);
    assert_eq!(ctx.get_operand(a, 0).token.idx, 0);
    assert!(!ctx.is_op_live(c));
}

#[test]
fn verify_stops_at_first_failure() {
    let mut ctx = Context::new();
    let (b, ops) = block_with_ops(&mut ctx, 3);
    let mut ok = vec![true; 3];
    assert_eq!(ctx.deref_block(b).verify(&ctx, |o: OpPtr| ok[o.idx]), Ok(()));
    ok[ops[2].idx] = false;
    assert_eq!(ctx.deref_block(b).verify(&ctx, |o: OpPtr| ok[o.idx]), Err(ops[2]));
    ok[ops[1].idx] = false;
    let checked = std::cell::RefCell::new(Vec::new());
    let r = ctx.deref_block(b).verify(&ctx, |o: OpPtr| {
        checked.borrow_mut().push(o);
        ok[o.idx]
    });
    assert_eq!(r, Err(ops[1]));
    assert_eq!(*checked.borrow(), vec![ops[0], ops[1]]);
}

#[test]
fn verify_empty_block() {
    let mut ctx = Context::new();
    let (b, _) = block_with_ops(&mut ctx, 0);
    assert_eq!(ctx.deref_block(b).verify(&ctx, |_o: OpPtr| false), Ok(()));
}

#[test]
fn block_iter_method() {
    let mut ctx = Context::new();
    let (b, ops) = block_with_ops(&mut ctx, 2);
    let mut it = ctx.deref_block(b).iter(&ctx);
    assert_eq!(it.next_back(&ctx), Some(ops[1]));
    assert_eq!(it.next(&ctx), Some(ops[0]));
    assert_eq!(it.next(&ctx), None);
}

#[test]
fn add_operand_registers_a_use() {
    let mut ctx = Context::new();
    let b = BasicBlock::new(&mut ctx, None, vec![ty(0)]);
    let v = ctx.deref_block(b).get_argument(0).unwrap();
    let o = Operation::new(&mut ctx, vec![v], 0);
    let tok = ctx.add_operand(o, v);
    assert_eq!(tok.idx, 1);
    assert_eq!(ctx.get_num_operands(o), 2);
    assert_eq!(ctx.get_operand(o, 1).def, v);
    assert_eq!(ctx.get_operand(o, 1).token, tok);
    let uses = v.get_uses(&ctx);
    assert_eq!((uses[1].op, uses[1].opd_idx), (o, 1));
}

#[test]
fn value_from_block_argument() {
    let mut ctx = Context::new();
    let b = BasicBlock::new(&mut ctx, None, vec![ty(0), ty(1)]);
    let arg = ctx.deref_block(b).get_argument_ref(1).unwrap();
    assert_eq!(Value::from(arg), Value::BlockArgument { block: b, arg_idx: 1 });
    assert_eq!(arg.as_value(), Value::from(arg));
}

#[test]
fn walk_any_interleaving() {
    let mut ctx = Context::new();
    let (b, ops) = block_with_ops(&mut ctx, 3);
    let mut it = ctx.iter(b);
    let (front, back) = it.walk(&ctx, &vec![false, true, false]);
    assert_eq!(front, vec![ops[0]]);
    assert_eq!(back, vec![ops[2], ops[1]]);
    assert_eq!(it.next(&ctx), None);
    assert_eq!(it.next_back(&ctx), None);
}

#[test]
fn walk_more_calls_than_operations() {
    let mut ctx = Context::new();
    let (b, ops) = block_with_ops(&mut ctx, 1);
    let mut it = ctx.iter(b);
    let (front, back) = it.walk(&ctx, &vec![true, true, false]);
    assert_eq!(front, vec![ops[0]]);
    assert!(back.is_empty());
}

#[test]
fn replace_all_uses_with_tokens_are_new_positions() {
    let mut ctx = Context::new();
    let b = BasicBlock::new(&mut ctx, None, vec![ty(0), ty(0)]);
    let v = ctx.deref_block(b).get_argument(0).unwrap();
    let w = ctx.deref_block(b).get_argument(1).unwrap();
    let _x = Operation::new(&mut ctx, vec![w, w], 0);
    let y = Operation::new(&mut ctx, vec![v], 0);
    let z = Operation::new(&mut ctx, vec![v], 0);
    v.replace_all_uses_with(&mut ctx, w);
    assert_eq!(ctx.get_operand(y, 0).token.idx, 2);
    assert_eq!(ctx.get_operand(z, 0).token.idx, 3);
}

#[test]
fn dealloc_op_renumbers_remaining_tokens() {
    let mut ctx = Context::new();
    let b = BasicBlock::new(&mut ctx, None, vec![ty(0)]);
    let v = ctx.deref_block(b).get_argument(0).unwrap();
    let a = Operation::new(&mut ctx, vec![v], 0);
    let c = Operation::new(&mut ctx, vec![v], 0);
    let d = Operation::new(&mut ctx, vec![v], 0);
    ctx.dealloc_op(a);
    assert_eq!(ctx.get_operand(c, 0).token.idx, 0);
    assert_eq!(ctx.get_operand(d, 0).token.idx, 1);
    let uses = v.get_uses(&ctx);
    assert_eq!((uses[0].op, uses[1].op), (c, d));
}

#[test]
fn predecessors_recorded_and_severed() {
    let mut ctx = Context::new();
    let a = BasicBlock::new(&mut ctx, None, vec![]);
    let b = BasicBlock::new(&mut ctx, None, vec![]);
    let c = BasicBlock::new(&mut ctx, None, vec![]);
    ctx.add_predecessor(c, a);
    ctx.add_predecessor(c, b);
    ctx.add_predecessor(c, a);
    ctx.add_predecessor(b, a);
    assert_eq!(ctx.deref_block(c).preds, vec![a, b, a]);
    ctx.remove_predecessor(c, b);
    assert_eq!(ctx.deref_block(c).preds, vec![a, a]);
    ctx.dealloc_block(a);
    assert!(ctx.deref_block(c).preds.is_empty());
    assert!(ctx.deref_block(b).preds.is_empty());
}

#[test]
fn block_equality_is_handle_equality() {
    let mut ctx = Context::new();
    let a = BasicBlock::new(&mut ctx, Some("same".to_string()), vec![]);
    let b = BasicBlock::new(&mut ctx, Some("same".to_string()), vec![]);
    assert!(ctx.deref_block(a) == ctx.deref_block(a));
    assert!(ctx.deref_block(a) != ctx.deref_block(b));
}
