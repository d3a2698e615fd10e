//! Deallocation: operations, and the cascade from regions through blocks.
use vstd::prelude::*;

use crate::context::{BlockPtr, Context, OpPtr, RegionPtr, Value};
use crate::value::{lemma_without_op, without_op};

verus! {

/// `s` without the occurrences of `p`, in order.
pub open spec fn without_block(s: Seq<BlockPtr>, p: BlockPtr) -> Seq<BlockPtr>
    decreases s.len(),
{
    if s.len() == 0 {
        s
    } else {
        let rest = without_block(s.drop_last(), p);
        if s.last() != p {
            rest.push(s.last())
        } else {
            rest
        }
    }
}

pub proof fn lemma_without_block(s: Seq<BlockPtr>, p: BlockPtr)
    ensures
        forall|x: BlockPtr| #[trigger] without_block(s, p).contains(x) <==> s.contains(x) && x != p,
    decreases s.len(),
{
    if s.len() > 0 {
        let d = s.drop_last();
        lemma_without_block(d, p);
        let w = without_block(d, p);
        assert(s == d.push(s.last()));
        assert forall|x: BlockPtr| #[trigger] without_block(s, p).contains(x) <==> s.contains(x) && x != p by {
            if s.contains(x) {
                let i = choose|i: int| 0 <= i < s.len() && s[i] == x;
                if i < d.len() {
                    assert(d[i] == x);
                }
            }
            if d.contains(x) {
                let i = choose|i: int| 0 <= i < d.len() && d[i] == x;
                assert(s[i] == x);
            }
            if s.last() != p {
                if w.push(s.last()).contains(x) {
                    let i = choose|i: int| 0 <= i < w.len() + 1 && w.push(s.last())[i] == x;
                    if i < w.len() {
                        assert(w[i] == x);
                    }
                }
                if w.contains(x) {
                    let i = choose|i: int| 0 <= i < w.len() && w[i] == x;
                    assert(w.push(s.last())[i] == x);
                }
                if x == s.last() {
                    assert(w.push(s.last())[w.len() as int] == x);
                }
            }
        }
    }
}

/// Some slot among the first `k` of operation `o` in `ctx` consumes `v`.
pub open spec fn consumed_by(ctx: &Context, o: OpPtr, v: Value, k: int) -> bool {
    exists|j: int| 0 <= j < k && (#[trigger] ctx.operand(o, j)).def == v
}

impl Context {
    /// Severs the references into the freed operation `o` held by
    /// use-lists: every entry for one of its operand slots leaves the
    /// use-list it is in. The slots that stay are given their new positions
    /// as tokens; no slot changes the value it consumes.
    pub fn remove_references(&mut self, o: OpPtr)
        requires
            old(self).wf(),
            old(self).op_valid(o),
            !old(self).op_live(o),
        ensures
            final(self).wf(),
            final(self).same_shape(old(self)),
            forall|v: Value| old(self).value_valid(v) ==> #[trigger] final(self).uses_of(v) == without_op(old(self).uses_of(v), o),
            forall|p: OpPtr| old(self).op_valid(p) ==> #[trigger] final(self).num_operands(p) == old(self).num_operands(p),
            forall|p: OpPtr, k: usize|
                old(self).op_valid(p) && k < old(self).num_operands(p) ==> (#[trigger] final(self).operand(p, k as int)).def
                    == old(self).operand(p, k as int).def,
    {
        let n = self.get_num_operands(o);
        let mut k: usize = 0;
        while k < n
            invariant
                self.wf(),
                old(self).wf(),
                self.same_shape(old(self)),
                old(self).op_valid(o),
                k <= n,
                n == old(self).num_operands(o),
                forall|v: Value| #[trigger] self.value_valid(v) == old(self).value_valid(v),
                !old(self).op_live(o),
                forall|p: OpPtr| old(self).op_valid(p) ==> #[trigger] self.num_operands(p) == old(self).num_operands(p),
                forall|p: OpPtr, j: usize|
                    old(self).op_valid(p) && j < old(self).num_operands(p) ==> (#[trigger] self.operand(p, j as int)).def
                        == old(self).operand(p, j as int).def,
                forall|v: Value|
                    old(self).value_valid(v) ==> #[trigger] self.uses_of(v) == if consumed_by(old(self), o, v, k as int) {
                        without_op(old(self).uses_of(v), o)
                    } else {
                        old(self).uses_of(v)
                    },
            decreases n - k,
        {
            proof {
                assert(self.num_operands(o) == old(self).num_operands(o));
                assert(self.ops@[o.idx as int].live == old(self).ops@[o.idx as int].live);
            }
            let v = self.get_operand(o, k).def;
            proof {
                assert(self.operand(o, k as int).def == old(self).operand(o, k as int).def);
            }
            let ghost pre = *self;
            if self.is_value_valid(v) {
                self.drop_uses_by(v, o);
            }
            proof {
                Context::lemma_same_shape_values(self, &pre);
                assert forall|w: Value|
                    old(self).value_valid(w) implies #[trigger] self.uses_of(w) == if consumed_by(old(self), o, w, k + 1) {
                        without_op(old(self).uses_of(w), o)
                    } else {
                        old(self).uses_of(w)
                    } by {
                    lemma_without_op(old(self).uses_of(w), o);
                    if w == v {
                        assert(old(self).operand(o, k as int).def == v);
                        assert(consumed_by(old(self), o, w, k + 1));
                    } else {
                        assert(pre.uses_of(w) == self.uses_of(w));
                        if consumed_by(old(self), o, w, k + 1) {
                            let j = choose|j: int| 0 <= j < k + 1 && (#[trigger] old(self).operand(o, j)).def == w;
                            assert(j != k);
                            assert(consumed_by(old(self), o, w, k as int));
                        }
                    }
                }
                assert forall|p: OpPtr| old(self).op_valid(p) implies #[trigger] self.num_operands(p) == old(self).num_operands(p) by {
                    assert(pre.num_operands(p) == old(self).num_operands(p));
                }
                assert forall|p: OpPtr, j: usize|
                    old(self).op_valid(p) && j < old(self).num_operands(p) implies (#[trigger] self.operand(p, j as int)).def
                        == old(self).operand(p, j as int).def by {
                    assert(pre.operand(p, j as int).def == old(self).operand(p, j as int).def);
                    assert(pre.num_operands(p) == old(self).num_operands(p));
                }
            }
            k = k + 1;
        }
        proof {
            assert forall|v: Value| old(self).value_valid(v) implies #[trigger] self.uses_of(v) == without_op(old(self).uses_of(v), o) by {
                let s = old(self).uses_of(v);
                lemma_without_op(s, o);
                if !consumed_by(old(self), o, v, n as int) {
                    assert forall|i: int| 0 <= i < s.len() implies (#[trigger] s[i]).op != o by {
                        assert(old(self).use_ok(v, i));
                        if s[i].op == o {
                            assert(old(self).operand(o, s[i].opd_idx as int).def == v);
                        }
                    }
                }
            }
        }
    }

    /// `self` is `o` with only liveness flags changed.
    pub open(crate) spec fn same_but_liveness(&self, o: &Context) -> bool {
        &&& self.ops@.len() == o.ops@.len()
        &&& self.blocks@.len() == o.blocks@.len()
        &&& self.regions@.len() == o.regions@.len()
        &&& self.op_links == o.op_links
        &&& forall|i: int|
            0 <= i < self.blocks@.len() ==> {
                &&& (#[trigger] self.blocks@[i]).self_ptr == o.blocks@[i].self_ptr
                &&& self.blocks@[i].args == o.blocks@[i].args
                &&& self.blocks@[i].label == o.blocks@[i].label
            }
        &&& forall|i: int| 0 <= i < self.regions@.len() ==> (#[trigger] self.regions@[i]).self_ptr == o.regions@[i].self_ptr
        &&& self.block_links == o.block_links
        &&& forall|i: int|
            0 <= i < self.ops@.len() ==> {
                &&& (#[trigger] self.ops@[i]).self_ptr == o.ops@[i].self_ptr
                &&& self.ops@[i].operands == o.ops@[i].operands
                &&& self.ops@[i].results == o.ops@[i].results
            }
    }

    pub(crate) proof fn lemma_liveness_wf(new: &Context, old: &Context)
        requires
            old.wf(),
            new.same_but_liveness(old),
            forall|p: OpPtr| #[trigger] new.op_live(p) ==> old.op_live(p),
        ensures
            new.wf(),
            forall|v: Value| #[trigger] new.value_valid(v) == old.value_valid(v),
            forall|v: Value| old.value_valid(v) ==> #[trigger] new.uses_of(v) == old.uses_of(v),
    {
        assert forall|i: int| 0 <= i < new.ops@.len() implies (#[trigger] new.ops@[i]).self_ptr.idx == i by {
            assert(old.ops@[i].self_ptr.idx == i);
        }
        assert forall|i: int| 0 <= i < new.blocks@.len() implies (#[trigger] new.blocks@[i]).self_ptr.idx == i by {
            assert(old.blocks@[i].self_ptr.idx == i);
        }
        assert forall|i: int| 0 <= i < new.regions@.len() implies (#[trigger] new.regions@[i]).self_ptr.idx == i by {
            assert(old.regions@[i].self_ptr.idx == i);
        }
        assert forall|v: Value| #[trigger] new.value_valid(v) == old.value_valid(v) by {
            match v {
                Value::OpResult { op, res_idx } => {
                    if op.idx < old.ops@.len() {
                        assert(new.ops@[op.idx as int].results == old.ops@[op.idx as int].results);
                    }
                },
                Value::BlockArgument { block, arg_idx } => {
                    if block.idx < old.blocks@.len() {
                        assert(new.blocks@[block.idx as int].args == old.blocks@[block.idx as int].args);
                    }
                },
            }
        }
        assert forall|v: Value| old.value_valid(v) implies #[trigger] new.uses_of(v) == old.uses_of(v) by {
            match v {
                Value::OpResult { op, res_idx } => {
                    assert(new.ops@[op.idx as int].results == old.ops@[op.idx as int].results);
                },
                Value::BlockArgument { block, arg_idx } => {
                    assert(new.blocks@[block.idx as int].args == old.blocks@[block.idx as int].args);
                },
            }
        }
        assert forall|b: int, i: int|
            0 <= b < new.blocks@.len() && 0 <= i < new.blocks@[b].args@.len() implies #[trigger] new.arg_ok(b, i) by {
            assert(old.arg_ok(b, i));
            assert(new.blocks@[b].args == old.blocks@[b].args);
        }
        assert forall|v: Value, k: int|
            new.value_valid(v) && 0 <= k < new.uses_of(v).len() implies #[trigger] new.use_ok(v, k) by {
            assert(old.use_ok(v, k));
            let u = old.uses_of(v)[k];
            assert(new.ops@[u.op.idx as int].operands == old.ops@[u.op.idx as int].operands);
        }
        assert forall|v: Value| new.value_valid(v) implies (#[trigger] new.uses_of(v)).no_duplicates() by {
            assert(old.uses_of(v).no_duplicates());
        }
        assert forall|o: OpPtr, k: usize| new.op_live(o) && k < new.num_operands(o) implies #[trigger] new.slot_recorded(o, k) by {
            assert(new.ops@[o.idx as int].operands == old.ops@[o.idx as int].operands);
            assert(old.slot_recorded(o, k));
        }
    }

    /// Marks operation `o` as freed.
    fn mark_op_freed(&mut self, o: OpPtr)
        requires
            old(self).wf(),
            old(self).op_valid(o),
        ensures
            final(self).wf(),
            final(self).same_but_liveness(old(self)),
            !final(self).op_live(o),
            forall|p: OpPtr| p != o && old(self).op_valid(p) ==> #[trigger] final(self).op_live(p) == old(self).op_live(p),
            final(self).blocks == old(self).blocks,
            final(self).regions == old(self).regions,
            final(self).block_links == old(self).block_links,
    {
        self.ops[o.idx].live = false;
        proof {
            assert forall|p: OpPtr| #[trigger] self.op_live(p) implies old(self).op_live(p) by {}
            Context::lemma_liveness_wf(self, old(self));
        }
    }

    /// Unlinks operation `o` from its block, if it is in one, and marks it freed.
    fn free_op_node(&mut self, o: OpPtr)
        requires
            old(self).wf(),
            old(self).op_valid(o),
        ensures
            final(self).wf(),
            !final(self).op_live(o),
            final(self).op_parent(o).is_none(),
            forall|p: OpPtr| p != o && old(self).op_valid(p) ==> #[trigger] final(self).op_live(p) == old(self).op_live(p),
            final(self).num_ops() == old(self).num_ops(),
            final(self).num_blocks() == old(self).num_blocks(),
            final(self).num_regions() == old(self).num_regions(),
            forall|b: BlockPtr| #[trigger] final(self).block_live(b) == old(self).block_live(b),
            forall|r: RegionPtr| #[trigger] final(self).region_live(r) == old(self).region_live(r),
            forall|r: RegionPtr| old(self).region_valid(r) ==> #[trigger] final(self).blocks_in(r) == old(self).blocks_in(r),
            forall|b: BlockPtr| old(self).block_valid(b) ==> #[trigger] final(self).ops_in(b) == (if old(self).op_parent(o) == Some(b) {
                old(self).ops_in(b).remove(old(self).op_position(o))
            } else {
                old(self).ops_in(b)
            }),
            forall|v: Value| old(self).value_valid(v) ==> #[trigger] final(self).uses_of(v) == old(self).uses_of(v),
            forall|v: Value| #[trigger] final(self).value_valid(v) == old(self).value_valid(v),
            final(self).same_block_links(old(self)),
    {
        let parent = self.op_links.get_links(o.idx).container;
        if parent.is_some() {
            self.remove_op(o);
            assert forall|b: BlockPtr| old(self).block_valid(b) implies #[trigger] self.ops_in(b) == (if old(self).op_parent(o) == Some(b) {
                old(self).ops_in(b).remove(old(self).op_position(o))
            } else {
                old(self).ops_in(b)
            }) by {
                assert(self.block_valid(b));
            }
        }
        let ghost mid = *self;
        self.mark_op_freed(o);
        proof {
            assert forall|p: OpPtr| #[trigger] self.op_live(p) implies mid.op_live(p) by {}
            Context::lemma_liveness_wf(self, &mid);
            assert forall|b: BlockPtr| old(self).block_valid(b) implies #[trigger] self.ops_in(b) == mid.ops_in(b) by {}
        }
    }

    /// Deallocates operation `o`: its operand slots leave the use-lists
    /// they are recorded in, it leaves its block, if it is in one, and its
    /// handle no longer locates a live operation.
    pub fn dealloc_op(&mut self, o: OpPtr)
        requires
            old(self).wf(),
            old(self).op_valid(o),
        ensures
            final(self).wf(),
            !final(self).op_live(o),
            final(self).op_parent(o).is_none(),
            forall|p: OpPtr| p != o && old(self).op_valid(p) ==> #[trigger] final(self).op_live(p) == old(self).op_live(p),
            final(self).num_ops() == old(self).num_ops(),
            final(self).num_blocks() == old(self).num_blocks(),
            final(self).num_regions() == old(self).num_regions(),
            forall|b: BlockPtr| #[trigger] final(self).block_live(b) == old(self).block_live(b),
            forall|r: RegionPtr| #[trigger] final(self).region_live(r) == old(self).region_live(r),
            forall|r: RegionPtr| old(self).region_valid(r) ==> #[trigger] final(self).blocks_in(r) == old(self).blocks_in(r),
            forall|b: BlockPtr| old(self).block_valid(b) ==> #[trigger] final(self).ops_in(b) == (if old(self).op_parent(o) == Some(b) {
                old(self).ops_in(b).remove(old(self).op_position(o))
            } else {
                old(self).ops_in(b)
            }),
            forall|v: Value| old(self).value_valid(v) ==> #[trigger] final(self).uses_of(v) == without_op(old(self).uses_of(v), o),
            final(self).same_block_links(old(self)),
    {
        self.free_op_node(o);
        let ghost freed = *self;
        self.remove_references(o);
        proof {
            Context::lemma_same_shape_values(self, &freed);
            assert(self.op_links == freed.op_links);
            assert(self.ops@[o.idx as int].live == freed.ops@[o.idx as int].live);
            assert forall|p: OpPtr| p != o && old(self).op_valid(p) implies #[trigger] self.op_live(p) == freed.op_live(p) by {
                assert(self.ops@[p.idx as int].live == freed.ops@[p.idx as int].live);
            }
            assert forall|b: BlockPtr| #[trigger] self.block_live(b) == freed.block_live(b) by {
                if b.idx < self.blocks@.len() {
                    assert(self.blocks@[b.idx as int].live == freed.blocks@[b.idx as int].live);
                }
            }
            assert forall|v: Value| old(self).value_valid(v) implies #[trigger] self.uses_of(v) == without_op(old(self).uses_of(v), o) by {
                assert(freed.value_valid(v) == old(self).value_valid(v));
                assert(freed.uses_of(v) == old(self).uses_of(v));
            }
        }
        proof {
            assert forall|p: OpPtr| p != o && old(self).op_valid(p) implies #[trigger] self.op_live(p) == old(self).op_live(p) by {
                assert(freed.op_live(p) == old(self).op_live(p));
            }
            assert forall|b: BlockPtr| #[trigger] self.block_live(b) == old(self).block_live(b) by {
                assert(freed.block_live(b) == old(self).block_live(b));
            }
            assert forall|r: RegionPtr| #[trigger] self.region_live(r) == old(self).region_live(r) by {
                assert(freed.region_live(r) == old(self).region_live(r));
                assert(self.regions@ == freed.regions@);
            }
            assert forall|r: RegionPtr| old(self).region_valid(r) implies #[trigger] self.blocks_in(r) == old(self).blocks_in(r) by {
                assert(freed.blocks_in(r) == old(self).blocks_in(r));
            }
            assert forall|b: BlockPtr| old(self).block_valid(b) implies #[trigger] self.ops_in(b) == (if old(self).op_parent(o) == Some(b) {
                old(self).ops_in(b).remove(old(self).op_position(o))
            } else {
                old(self).ops_in(b)
            }) by {
                assert(freed.block_valid(b));
                assert(self.ops_in(b) == freed.ops_in(b));
            }
            assert(self.op_parent(o) == freed.op_parent(o));
        }
    }

    /// Records `p` as a predecessor of block `b`.
    pub fn add_predecessor(&mut self, b: BlockPtr, p: BlockPtr)
        requires
            old(self).wf(),
            old(self).block_valid(b),
        ensures
            final(self).wf(),
            final(self).preds_of(b) == old(self).preds_of(b).push(p),
            forall|c: BlockPtr| c != b && old(self).block_valid(c) ==> #[trigger] final(self).preds_of(c) == old(self).preds_of(c),
            final(self).same_but_liveness(old(self)),
            final(self).same_ops(old(self)),
            forall|r: RegionPtr| #[trigger] final(self).region_live(r) == old(self).region_live(r),
            forall|c: BlockPtr| #[trigger] final(self).block_live(c) == old(self).block_live(c),
    {
        self.blocks[b.idx].preds.push(p);
        proof {
            assert forall|q: OpPtr| #[trigger] self.op_live(q) implies old(self).op_live(q) by {}
            Context::lemma_liveness_wf(self, old(self));
        }
    }

    /// Removes every record of `p` as a predecessor of block `b`.
    pub fn remove_predecessor(&mut self, b: BlockPtr, p: BlockPtr)
        requires
            old(self).wf(),
            old(self).block_valid(b),
        ensures
            final(self).wf(),
            final(self).preds_of(b) == without_block(old(self).preds_of(b), p),
            forall|c: BlockPtr| c != b && old(self).block_valid(c) ==> #[trigger] final(self).preds_of(c) == old(self).preds_of(c),
            final(self).same_but_liveness(old(self)),
            final(self).same_ops(old(self)),
            forall|r: RegionPtr| #[trigger] final(self).region_live(r) == old(self).region_live(r),
            forall|c: BlockPtr| #[trigger] final(self).block_live(c) == old(self).block_live(c),
    {
        let mut kept: Vec<BlockPtr> = Vec::new();
        let mut i: usize = 0;
        let n = self.blocks[b.idx].preds.len();
        while i < n
            invariant
                n == old(self).preds_of(b).len(),
                i <= n,
                self == old(self),
                old(self).block_valid(b),
                kept@ == without_block(old(self).preds_of(b).subrange(0, i as int), p),
            decreases n - i,
        {
            let x = self.blocks[b.idx].preds[i];
            assert(old(self).preds_of(b).subrange(0, i + 1).drop_last() == old(self).preds_of(b).subrange(0, i as int));
            if x != p {
                kept.push(x);
            }
            i = i + 1;
        }
        assert(old(self).preds_of(b).subrange(0, n as int) == old(self).preds_of(b));
        self.blocks[b.idx].preds = kept;
        proof {
            assert forall|q: OpPtr| #[trigger] self.op_live(q) implies old(self).op_live(q) by {}
            Context::lemma_liveness_wf(self, old(self));
        }
    }

    /// Removes block `b` from the predecessors of every block.
    fn sever_predecessor_refs(&mut self, b: BlockPtr)
        requires
            old(self).wf(),
        ensures
            final(self).wf(),
            forall|c: BlockPtr| final(self).block_valid(c) ==> !(#[trigger] final(self).preds_of(c)).contains(b),
            final(self).same_but_liveness(old(self)),
            final(self).same_ops(old(self)),
            final(self).regions@ == old(self).regions@,
            final(self).block_links == old(self).block_links,
            forall|c: BlockPtr| #[trigger] final(self).block_live(c) == old(self).block_live(c),
    {
        let n = self.blocks.len();
        let mut i: usize = 0;
        while i < n
            invariant
                self.wf(),
                old(self).wf(),
                i <= n,
                n == old(self).num_blocks(),
                self.same_but_liveness(old(self)),
                self.same_ops(old(self)),
                self.regions@ == old(self).regions@,
                self.block_links == old(self).block_links,
                forall|c: BlockPtr| #[trigger] self.block_live(c) == old(self).block_live(c),
                forall|c: BlockPtr| c.idx < i ==> !(#[trigger] self.preds_of(c)).contains(b),
            decreases n - i,
        {
            let ghost pre = *self;
            self.remove_predecessor(BlockPtr { idx: i }, b);
            proof {
                assert(self.regions@ =~= pre.regions@) by {
                    assert(self.regions@.len() == pre.regions@.len());
                    assert forall|k: int| 0 <= k < self.regions@.len() implies self.regions@[k] == pre.regions@[k] by {
                        assert(self.regions@[k].self_ptr == pre.regions@[k].self_ptr);
                        assert(self.region_live(RegionPtr { idx: k as usize }) == pre.region_live(RegionPtr { idx: k as usize }));
                    }
                }
                lemma_without_block(pre.preds_of(BlockPtr { idx: i }), b);
                assert forall|c: BlockPtr| c.idx < i + 1 implies !(#[trigger] self.preds_of(c)).contains(b) by {
                    if c.idx < i {
                        assert(self.block_valid(c));
                        assert(c != BlockPtr { idx: i });
                        assert(self.preds_of(c) == pre.preds_of(c));
                    } else {
                        assert(c == BlockPtr { idx: i });
                    }
                }
                assert forall|c: BlockPtr| #[trigger] self.block_live(c) == old(self).block_live(c) by {
                    assert(pre.block_live(c) == old(self).block_live(c));
                }
            }
            i = i + 1;
        }
    }

    /// Marks block `b` as freed.
    fn mark_block_freed(&mut self, b: BlockPtr)
        requires
            old(self).wf(),
            old(self).block_valid(b),
        ensures
            final(self).wf(),
            final(self).same_but_liveness(old(self)),
            final(self).ops == old(self).ops,
            final(self).regions == old(self).regions,
            final(self).block_links == old(self).block_links,
            !final(self).block_live(b),
            forall|c: BlockPtr| old(self).block_valid(c) ==> #[trigger] final(self).preds_of(c) == old(self).preds_of(c),
            forall|c: BlockPtr| c != b && old(self).block_valid(c) ==> #[trigger] final(self).block_live(c) == old(self).block_live(c),
    {
        self.blocks[b.idx].live = false;
        proof {
            assert forall|p: OpPtr| #[trigger] self.op_live(p) implies old(self).op_live(p) by {}
            Context::lemma_liveness_wf(self, old(self));
        }
    }

    /// Deallocates the first operation of block `b`.
    fn dealloc_first_op(&mut self, b: BlockPtr) -> (o: OpPtr)
        requires
            old(self).wf(),
            old(self).block_valid(b),
            old(self).ops_in(b).len() > 0,
        ensures
            final(self).wf(),
            o == old(self).ops_in(b)[0],
            !final(self).op_live(o),
            final(self).ops_in(b) == old(self).ops_in(b).drop_first(),
            forall|p: OpPtr| p != o && old(self).op_valid(p) ==> #[trigger] final(self).op_live(p) == old(self).op_live(p),
            forall|c: BlockPtr| c != b && old(self).block_valid(c) ==> #[trigger] final(self).ops_in(c) == old(self).ops_in(c),
            forall|c: BlockPtr| #[trigger] final(self).block_live(c) == old(self).block_live(c),
            forall|r: RegionPtr| #[trigger] final(self).region_live(r) == old(self).region_live(r),
            final(self).num_ops() == old(self).num_ops(),
            final(self).num_blocks() == old(self).num_blocks(),
            final(self).num_regions() == old(self).num_regions(),
            final(self).same_block_links(old(self)),
    {
        proof {
            self.op_links.lemma_slot(b.idx as int, 0);
        }
        let o = self.ops_list(b).first.unwrap();
        proof {
            assert(self.op_links.lists()[b.idx as int][0] == o.idx);
            assert(self.op_links.position(o.idx as int) == 0);
            assert(self.op_parent(o) == Some(b));
        }
        self.dealloc_op(o);
        proof {
            assert(self.ops_in(b) =~= old(self).ops_in(b).drop_first());
        }
        o
    }

    /// Unlinks block `b` from its region, if it is in one, and marks it freed.
    fn free_block_node(&mut self, b: BlockPtr)
        requires
            old(self).wf(),
            old(self).block_valid(b),
        ensures
            final(self).wf(),
            final(self).op_links == old(self).op_links,
            final(self).ops == old(self).ops,
            !final(self).block_live(b),
            forall|c: BlockPtr| old(self).block_valid(c) ==> #[trigger] final(self).preds_of(c) == old(self).preds_of(c),
            final(self).block_parent(b).is_none(),
            forall|c: BlockPtr| c != b && old(self).block_valid(c) ==> #[trigger] final(self).block_live(c) == old(self).block_live(c),
            forall|r: RegionPtr| #[trigger] final(self).region_live(r) == old(self).region_live(r),
            final(self).num_ops() == old(self).num_ops(),
            final(self).num_blocks() == old(self).num_blocks(),
            final(self).num_regions() == old(self).num_regions(),
            forall|r: RegionPtr| old(self).region_valid(r) ==> #[trigger] final(self).blocks_in(r) == (if old(self).block_parent(b) == Some(r) {
                old(self).blocks_in(r).remove(old(self).block_position(b))
            } else {
                old(self).blocks_in(r)
            }),
    {
        let linked = self.block_links.get_links(b.idx).container;
        if linked.is_some() {
            self.remove_block(b);
            assert forall|r: RegionPtr| old(self).region_valid(r) implies #[trigger] self.blocks_in(r) == (if old(self).block_parent(b) == Some(r) {
                old(self).blocks_in(r).remove(old(self).block_position(b))
            } else {
                old(self).blocks_in(r)
            }) by {
                assert(self.region_valid(r));
            }
        }
        let ghost mid = *self;
        self.mark_block_freed(b);
        assert forall|r: RegionPtr| old(self).region_valid(r) implies #[trigger] self.blocks_in(r) == mid.blocks_in(r) by {}
    }

    /// Deallocates block `b`: first every operation still in it, one
    /// deallocation each, then the block itself, which leaves its region.
    /// Returns the number of operations deallocated.
    pub fn dealloc_block(&mut self, b: BlockPtr) -> (n: usize)
        requires
            old(self).wf(),
            old(self).block_valid(b),
        ensures
            final(self).wf(),
            n == old(self).ops_in(b).len(),
            forall|k: int| 0 <= k < old(self).ops_in(b).len() ==> !final(self).op_live(#[trigger] old(self).ops_in(b)[k]),
            forall|p: OpPtr|
                old(self).op_valid(p) && !old(self).ops_in(b).contains(p) ==> #[trigger] final(self).op_live(p)
                    == old(self).op_live(p),
            !final(self).block_live(b),
            forall|c: BlockPtr| final(self).block_valid(c) ==> !(#[trigger] final(self).preds_of(c)).contains(b),
            final(self).ops_in(b).len() == 0,
            final(self).block_parent(b).is_none(),
            forall|c: BlockPtr| c != b && old(self).block_valid(c) ==> #[trigger] final(self).block_live(c) == old(self).block_live(c),
            forall|c: BlockPtr| c != b && old(self).block_valid(c) ==> #[trigger] final(self).ops_in(c) == old(self).ops_in(c),
            forall|r: RegionPtr| #[trigger] final(self).region_live(r) == old(self).region_live(r),
            final(self).num_ops() == old(self).num_ops(),
            final(self).num_blocks() == old(self).num_blocks(),
            final(self).num_regions() == old(self).num_regions(),
            forall|r: RegionPtr| old(self).region_valid(r) ==> #[trigger] final(self).blocks_in(r) == (if old(self).block_parent(b) == Some(r) {
                old(self).blocks_in(r).remove(old(self).block_position(b))
            } else {
                old(self).blocks_in(r)
            }),
    {
        proof {
            self.op_links.lemma_no_duplicates(b.idx as int);
            self.op_links.lemma_list_len(b.idx as int);
        }
        let ghost orig = self.ops_in(b);
        let mut n: usize = 0;
        while self.ops_list(b).first.is_some()
            invariant
                self.wf(),
                self.block_valid(b),
                n <= orig.len(),
                orig == old(self).ops_in(b),
                orig.no_duplicates(),
                orig.len() <= usize::MAX,
                self.ops_in(b) == orig.subrange(n as int, orig.len() as int),
                forall|k: int| 0 <= k < n ==> !self.op_live(#[trigger] orig[k]),
                forall|p: OpPtr|
                    old(self).op_valid(p) && !orig.contains(p) ==> #[trigger] self.op_live(p) == old(self).op_live(p),
                forall|c: BlockPtr| c != b && old(self).block_valid(c) ==> #[trigger] self.ops_in(c) == old(self).ops_in(c),
                forall|c: BlockPtr| #[trigger] self.block_live(c) == old(self).block_live(c),
                forall|r: RegionPtr| #[trigger] self.region_live(r) == old(self).region_live(r),
                self.num_ops() == old(self).num_ops(),
                self.num_blocks() == old(self).num_blocks(),
                self.num_regions() == old(self).num_regions(),
                self.same_block_links(old(self)),
            decreases orig.len() - n,
        {
            assert(self.ops_in(b).len() == orig.len() - n);
            let ghost pre = *self;
            let o = self.dealloc_first_op(b);
            proof {
                assert(orig[n as int] == o);
                assert(self.ops_in(b) =~= orig.subrange(n + 1, orig.len() as int));
                assert forall|p: OpPtr|
                    old(self).op_valid(p) && !orig.contains(p) implies #[trigger] self.op_live(p) == old(self).op_live(p) by {
                    assert(pre.op_live(p) == old(self).op_live(p));
                }
                assert forall|k: int| 0 <= k < n + 1 implies !self.op_live(#[trigger] orig[k]) by {
                    if k < n {
                        assert(!pre.op_live(orig[k]));
                        assert(orig[k] != orig[n as int]);
                    }
                }
                assert forall|c: BlockPtr| c != b && old(self).block_valid(c) implies #[trigger] self.ops_in(c) == old(self).ops_in(c) by {
                    assert(pre.ops_in(c) == old(self).ops_in(c));
                }
                assert forall|c: BlockPtr| #[trigger] self.block_live(c) == old(self).block_live(c) by {
                    assert(pre.block_live(c) == old(self).block_live(c));
                }
                assert forall|r: RegionPtr| #[trigger] self.region_live(r) == old(self).region_live(r) by {
                    assert(pre.region_live(r) == old(self).region_live(r));
                }
            }
            n = n + 1;
        }
        proof {
            if n < orig.len() {
                assert(self.ops_in(b).len() > 0);
            }
        }
        let ghost before_sever = *self;
        self.sever_predecessor_refs(b);
        proof {
            assert forall|c: BlockPtr| c != b && old(self).block_valid(c) implies #[trigger] self.ops_in(c) == before_sever.ops_in(c) by {}
            assert(self.ops_in(b) == before_sever.ops_in(b));
            assert forall|p: OpPtr| #[trigger] self.op_live(p) == before_sever.op_live(p) by {}
            assert forall|r: RegionPtr| #[trigger] self.region_live(r) == before_sever.region_live(r) by {}
            assert forall|r: RegionPtr| old(self).region_valid(r) implies #[trigger] self.blocks_in(r) == before_sever.blocks_in(r) by {}
            assert(self.block_parent(b) == before_sever.block_parent(b));
            assert(self.block_position(b) == before_sever.block_position(b));
            assert forall|c: BlockPtr| #[trigger] self.block_live(c) == before_sever.block_live(c) by {}
        }
        let ghost mid = *self;
        self.free_block_node(b);
        proof {
            assert forall|c: BlockPtr| self.block_valid(c) implies !(#[trigger] self.preds_of(c)).contains(b) by {
                assert(mid.block_valid(c));
                assert(self.preds_of(c) == mid.preds_of(c));
            }
            assert forall|c: BlockPtr| c != b && old(self).block_valid(c) implies #[trigger] self.ops_in(c) == old(self).ops_in(c) by {
                assert(mid.ops_in(c) == old(self).ops_in(c));
            }
            assert(self.ops_in(b) == mid.ops_in(b));
            assert forall|p: OpPtr|
                old(self).op_valid(p) && !orig.contains(p) implies #[trigger] self.op_live(p) == old(self).op_live(p) by {
                assert(mid.op_live(p) == old(self).op_live(p));
            }
            assert forall|k: int| 0 <= k < orig.len() implies !self.op_live(#[trigger] orig[k]) by {
                assert(!mid.op_live(orig[k]));
            }
            assert forall|c: BlockPtr| c != b && old(self).block_valid(c) implies #[trigger] self.block_live(c) == old(self).block_live(c) by {
                assert(mid.block_live(c) == old(self).block_live(c));
            }
            assert forall|r: RegionPtr| #[trigger] self.region_live(r) == old(self).region_live(r) by {
                assert(mid.region_live(r) == old(self).region_live(r));
            }
            assert forall|r: RegionPtr| old(self).region_valid(r) implies #[trigger] self.blocks_in(r) == (if old(self).block_parent(b) == Some(r) {
                old(self).blocks_in(r).remove(old(self).block_position(b))
            } else {
                old(self).blocks_in(r)
            }) by {
                assert(mid.region_valid(r));
            }
        }
        n
    }

    /// Marks region `r` as freed.
    fn mark_region_freed(&mut self, r: RegionPtr)
        requires
            old(self).wf(),
            old(self).region_valid(r),
        ensures
            final(self).wf(),
            final(self).same_ops(old(self)),
            final(self).blocks == old(self).blocks,
            final(self).op_links == old(self).op_links,
            final(self).block_links == old(self).block_links,
            !final(self).region_live(r),
    {
        self.regions.set(r.idx, crate::context::Region { self_ptr: r, live: false });
        proof {
            assert(old(self).regions@[r.idx as int].self_ptr.idx == r.idx);
            assert forall|p: OpPtr| #[trigger] self.op_live(p) implies old(self).op_live(p) by {}
            Context::lemma_liveness_wf(self, old(self));
        }
    }

    /// Deallocates region `r`: every block in it, each with its operations,
    /// then the region itself. Returns the number of blocks deallocated.
    pub fn dealloc_region(&mut self, r: RegionPtr) -> (n: usize)
        requires
            old(self).wf(),
            old(self).region_valid(r),
        ensures
            final(self).wf(),
            n == old(self).blocks_in(r).len(),
            forall|k: int| 0 <= k < old(self).blocks_in(r).len() ==> !final(self).block_live(#[trigger] old(self).blocks_in(r)[k]),
            forall|k: int, j: int|
                0 <= k < old(self).blocks_in(r).len() && 0 <= j < old(self).ops_in(old(self).blocks_in(r)[k]).len()
                    ==> !final(self).op_live(#[trigger] old(self).ops_in(old(self).blocks_in(r)[k])[j]),
            !final(self).region_live(r),
            final(self).blocks_in(r).len() == 0,
    {
        proof {
            self.block_links.lemma_no_duplicates(r.idx as int);
            self.block_links.lemma_list_len(r.idx as int);
        }
        let ghost orig = self.blocks_in(r);
        assert forall|k: int| 0 <= k < orig.len() implies old(self).block_valid(#[trigger] orig[k]) by {
            self.block_links.lemma_slot(r.idx as int, k);
        }
        let mut n: usize = 0;
        while self.region_ends(r).0.is_some()
            invariant
                self.wf(),
                old(self).wf(),
                self.region_valid(r),
                n <= orig.len(),
                orig.len() <= usize::MAX,
                orig == old(self).blocks_in(r),
                orig.no_duplicates(),
                forall|k: int| 0 <= k < orig.len() ==> old(self).block_valid(#[trigger] orig[k]),
                self.blocks_in(r) == orig.subrange(n as int, orig.len() as int),
                forall|k: int| 0 <= k < n ==> !self.block_live(#[trigger] orig[k]),
                forall|k: int, j: int|
                    0 <= k < n && 0 <= j < old(self).ops_in(orig[k]).len() ==> !self.op_live(
                        #[trigger] old(self).ops_in(orig[k])[j],
                    ),
                forall|k: int| n <= k < orig.len() ==> self.ops_in(#[trigger] orig[k]) == old(self).ops_in(orig[k]),
                self.num_ops() == old(self).num_ops(),
                self.num_blocks() == old(self).num_blocks(),
                self.num_regions() == old(self).num_regions(),
            decreases orig.len() - n,
        {
            assert(self.blocks_in(r).len() == orig.len() - n);
            proof {
                self.block_links.lemma_slot(r.idx as int, 0);
            }
            let b = self.region_ends(r).0.unwrap();
            proof {
                assert(b == orig[n as int]);
                assert(self.block_parent(b) == Some(r));
                assert(self.block_position(b) == 0);
            }
            let ghost pre = *self;
            self.dealloc_block(b);
            proof {
                assert(self.blocks_in(r) =~= orig.subrange(n + 1, orig.len() as int));
                assert forall|k: int| 0 <= k < n + 1 implies !self.block_live(#[trigger] orig[k]) by {
                    if k < n {
                        assert(orig[k] != b);
                        assert(!pre.block_live(orig[k]));
                    }
                }
                assert forall|k: int, j: int|
                    0 <= k < n + 1 && 0 <= j < old(self).ops_in(orig[k]).len() implies !self.op_live(
                        #[trigger] old(self).ops_in(orig[k])[j],
                    ) by {
                    let o = old(self).ops_in(orig[k])[j];
                    if k < n {
                        assert(!pre.op_live(o));
                        assert(old(self).op_valid(o)) by {
                            old(self).op_links.lemma_slot(orig[k].idx as int, j);
                        }
                        if !pre.ops_in(b).contains(o) {
                            assert(self.op_live(o) == pre.op_live(o));
                        } else {
                            let t = choose|t: int| 0 <= t < pre.ops_in(b).len() && pre.ops_in(b)[t] == o;
                            assert(!self.op_live(pre.ops_in(b)[t]));
                        }
                    } else {
                        assert(pre.ops_in(b) == old(self).ops_in(orig[k]));
                        assert(!self.op_live(pre.ops_in(b)[j]));
                    }
                }
                assert forall|k: int| n + 1 <= k < orig.len() implies self.ops_in(#[trigger] orig[k]) == old(self).ops_in(orig[k]) by {
                    assert(orig[k] != b);
                    assert(pre.ops_in(orig[k]) == old(self).ops_in(orig[k]));
                }
            }
            n = n + 1;
        }
        proof {
            if n < orig.len() {
                assert(self.blocks_in(r).len() > 0);
            }
        }
        let ghost mid = *self;
        self.mark_region_freed(r);
        proof {
            assert forall|k: int| 0 <= k < orig.len() implies !self.block_live(#[trigger] orig[k]) by {
                assert(!mid.block_live(orig[k]));
            }
            assert forall|k: int, j: int|
                0 <= k < orig.len() && 0 <= j < old(self).ops_in(orig[k]).len() implies !self.op_live(
                    #[trigger] old(self).ops_in(orig[k])[j],
                ) by {
                assert(!mid.op_live(old(self).ops_in(orig[k])[j]));
            }
            assert(self.blocks_in(r) == mid.blocks_in(r));
        }
        n
    }
}

} // verus!
