//! Creation of operations, the nodes that consume and define values.
use vstd::prelude::*;

use crate::context::{Context, OpPtr, OpResult, Operand, Operation, UseRef, Value};

verus! {

/// The use-list entries that slots `0..n` of operation `o`, holding
/// `operands`, contribute to value `v`, in slot order.
pub open spec fn uses_from(o: OpPtr, operands: Seq<Value>, v: Value, n: nat) -> Seq<UseRef>
    decreases n,
{
    if n == 0 {
        Seq::empty()
    } else {
        let prev = uses_from(o, operands, v, (n - 1) as nat);
        if operands[n - 1] == v {
            prev.push(UseRef { op: o, opd_idx: (n - 1) as usize })
        } else {
            prev
        }
    }
}

impl Operation {
    /// Creates an operation that consumes `operands` and defines `num_results`
    /// results. Each operand is registered as a use of its value.
    pub fn new(ctx: &mut Context, operands: Vec<Value>, num_results: usize) -> (r: OpPtr)
        requires
            old(ctx).wf(),
            old(ctx).num_ops() < usize::MAX,
            forall|k: int| 0 <= k < operands@.len() ==> old(ctx).value_valid(#[trigger] operands@[k]),
        ensures
            final(ctx).wf(),
            r.idx == old(ctx).num_ops(),
            final(ctx).num_ops() == old(ctx).num_ops() + 1,
            final(ctx).num_blocks() == old(ctx).num_blocks(),
            final(ctx).num_regions() == old(ctx).num_regions(),
            final(ctx).op_live(r),
            final(ctx).op_parent(r) == None::<crate::context::BlockPtr>,
            final(ctx).num_results(r) == num_results,
            final(ctx).num_operands(r) == operands@.len(),
            forall|k: int| 0 <= k < operands@.len() ==> (#[trigger] final(ctx).operand(r, k)).def == operands@[k],
            forall|i: int| 0 <= i < num_results ==> #[trigger] final(ctx).uses_of(
                Value::OpResult { op: r, res_idx: i as usize },
            ).len() == 0,
            forall|v: Value|
                old(ctx).value_valid(v) ==> #[trigger] final(ctx).uses_of(v) == old(ctx).uses_of(v) + uses_from(
                    r,
                    operands@,
                    v,
                    operands@.len(),
                ),
            final(ctx).keeps_links(old(ctx)),
            final(ctx).keeps_nodes_but_uses(old(ctx)),
    {
        proof {
            ctx.op_links.lemma_wf_facts();
        }
        let o = OpPtr { idx: ctx.ops.len() };
        let mut results: Vec<OpResult> = Vec::new();
        let mut i: usize = 0;
        while i < num_results
            invariant
                i <= num_results,
                results@.len() == i,
                forall|j: int| 0 <= j < i ==> (#[trigger] results@[j]).uses@.len() == 0,
            decreases num_results - i,
        {
            results.push(OpResult { uses: Vec::new() });
            i = i + 1;
        }
        ctx.ops.push(Operation { self_ptr: o, operands: Vec::new(), results, live: true });
        ctx.op_links.push_elem();
        proof {
            ctx.op_links.lemma_wf_facts();
            assert forall|b: int, j: int|
                0 <= b < ctx.blocks@.len() && 0 <= j < ctx.blocks@[b].args@.len() implies #[trigger] ctx.arg_ok(b, j) by {
                assert(old(ctx).arg_ok(b, j));
            }
            assert forall|v: Value, k: int|
                ctx.value_valid(v) && 0 <= k < ctx.uses_of(v).len() implies #[trigger] ctx.use_ok(v, k) by {
                assert(old(ctx).use_ok(v, k));
            }
            assert forall|v: Value| ctx.value_valid(v) implies (#[trigger] ctx.uses_of(v)).no_duplicates() by {
                if old(ctx).value_valid(v) {
                    assert(old(ctx).uses_of(v).no_duplicates());
                }
            }
            assert forall|p: OpPtr, k: usize| ctx.op_live(p) && k < ctx.num_operands(p) implies #[trigger] ctx.slot_recorded(p, k) by {
                assert(old(ctx).slot_recorded(p, k));
            }
        }
        let ghost mid = *ctx;
        proof {
            Context::lemma_keeps_links(ctx, old(ctx));
        }
        assert forall|v: Value| #[trigger] old(ctx).value_valid(v) implies mid.value_valid(v) by {
            match v {
                Value::OpResult { op, res_idx } => {
                    assert(mid.ops@[op.idx as int] == old(ctx).ops@[op.idx as int]);
                },
                Value::BlockArgument { block, arg_idx } => {},
            }
        }
        let mut j: usize = 0;
        while j < operands.len()
            invariant
                ctx.wf(),
                mid.wf(),
                ctx.same_shape(&mid),
                o.idx == old(ctx).num_ops(),
                mid.num_ops() == old(ctx).num_ops() + 1,
                mid.num_blocks() == old(ctx).num_blocks(),
                mid.num_regions() == old(ctx).num_regions(),
                mid.op_live(o),
                mid.op_parent(o) == None::<crate::context::BlockPtr>,
                mid.num_results(o) == num_results,
                mid.num_operands(o) == 0,
                forall|i: int| 0 <= i < num_results ==> #[trigger] mid.uses_of(
                    Value::OpResult { op: o, res_idx: i as usize },
                ).len() == 0,
                forall|v: Value| old(ctx).value_valid(v) ==> #[trigger] mid.uses_of(v) == old(ctx).uses_of(v),
                forall|v: Value| #[trigger] old(ctx).value_valid(v) ==> mid.value_valid(v),
                forall|v: Value| #[trigger] mid.value_valid(v) ==> old(ctx).value_valid(v) || (v matches Value::OpResult { op, .. } && op == o),
                forall|k: int| 0 <= k < operands@.len() ==> old(ctx).value_valid(#[trigger] operands@[k]),
                j <= operands@.len(),
                ctx.num_operands(o) == j,
                forall|k: int| 0 <= k < j ==> (#[trigger] ctx.operand(o, k)).def == operands@[k],
                forall|p: OpPtr| mid.op_valid(p) && p != o ==> #[trigger] ctx.op(p).operands@ == mid.op(p).operands@,
                forall|v: Value|
                    mid.value_valid(v) ==> #[trigger] ctx.uses_of(v) == mid.uses_of(v) + uses_from(o, operands@, v, j as nat),
            decreases operands@.len() - j,
        {
            let val = operands[j];
            proof {
                assert(old(ctx).value_valid(operands@[j as int]));
                Context::lemma_same_shape_values(ctx, &mid);
            }
            let ghost pre = *ctx;
            let u = UseRef { op: o, opd_idx: j };
            let tok = ctx.push_use(val, u);
            ctx.push_operand(o, Operand { def: val, token: tok });
            proof {
                Context::lemma_same_shape_values(ctx, &pre);
                Context::lemma_register_wf(ctx, &pre, val, u, Operand { def: val, token: tok });
                assert forall|v: Value|
                    mid.value_valid(v) implies #[trigger] ctx.uses_of(v) == mid.uses_of(v) + uses_from(o, operands@, v, (j + 1) as nat) by {
                    if v == val {
                        assert(ctx.uses_of(v) == pre.uses_of(v).push(u));
                    } else {
                        assert(ctx.uses_of(v) == pre.uses_of(v));
                    }
                    assert(mid.uses_of(v) + uses_from(o, operands@, v, j as nat).push(u) =~= (mid.uses_of(v) + uses_from(o, operands@, v, j as nat)).push(u));
                }
                assert forall|p: OpPtr| mid.op_valid(p) && p != o implies #[trigger] ctx.op(p).operands@ == mid.op(p).operands@ by {
                    assert(pre.op(p).operands@ == mid.op(p).operands@);
                }
                assert forall|k: int| 0 <= k < j + 1 implies (#[trigger] ctx.operand(o, k)).def == operands@[k] by {
                    if k < j {
                        assert(pre.operand(o, k).def == operands@[k]);
                    }
                }
            }
            j = j + 1;
        }
        proof {
            assert forall|v: Value|
                old(ctx).value_valid(v) implies #[trigger] ctx.uses_of(v) == old(ctx).uses_of(v) + uses_from(o, operands@, v, operands@.len()) by {
                assert(mid.uses_of(v) == old(ctx).uses_of(v));
            }
            assert forall|i: int| 0 <= i < num_results implies #[trigger] ctx.uses_of(
                Value::OpResult { op: o, res_idx: i as usize },
            ).len() == 0 by {
                let v = Value::OpResult { op: o, res_idx: i as usize };
                assert(mid.uses_of(v).len() == 0);
                assert forall|n: nat| n <= operands@.len() implies #[trigger] uses_from(o, operands@, v, n).len() == 0 by {
                    Context::lemma_uses_from_not_new(o, operands@, v, n, old(ctx));
                }
            }
        }
        o
    }
}

impl Context {
    /// Appends to operation `o` an operand slot that consumes `v`, and
    /// registers it as a use of `v`; returns the token of the registration,
    /// which the new slot holds.
    pub fn add_operand(&mut self, o: OpPtr, v: Value) -> (tok: crate::context::Use)
        requires
            old(self).wf(),
            old(self).op_valid(o),
            old(self).value_valid(v),
        ensures
            final(self).wf(),
            final(self).same_shape(old(self)),
            tok.idx == old(self).uses_of(v).len(),
            final(self).num_operands(o) == old(self).num_operands(o) + 1,
            final(self).operand(o, old(self).num_operands(o) as int) == (Operand { def: v, token: tok }),
            final(self).uses_of(v) == old(self).uses_of(v).push(UseRef { op: o, opd_idx: old(self).num_operands(o) as usize }),
            forall|w: Value|
                old(self).value_valid(w) && w != v ==> #[trigger] final(self).uses_of(w) == old(self).uses_of(w),
            forall|k: int| 0 <= k < old(self).num_operands(o) ==> #[trigger] final(self).operand(o, k) == old(self).operand(o, k),
    {
        let n = self.get_num_operands(o);
        let u = UseRef { op: o, opd_idx: n };
        let tok = self.push_use(v, u);
        self.push_operand(o, Operand { def: v, token: tok });
        proof {
            Context::lemma_same_shape_values(self, old(self));
            Context::lemma_register_wf(self, old(self), v, u, Operand { def: v, token: tok });
        }
        tok
    }

    /// Well-formedness after appending operand slot `u` of value `val`, and
    /// recording it in the use-list of `val`.
    pub(crate) proof fn lemma_register_wf(new: &Context, pre: &Context, val: Value, u: UseRef, opd: Operand)
        requires
            pre.wf(),
            new.same_shape(pre),
            pre.value_valid(val),
            pre.op_valid(u.op),
            u.opd_idx == pre.num_operands(u.op),
            opd.def == val,
            opd.token.idx == pre.uses_of(val).len(),
            forall|x: Value| #[trigger] new.value_valid(x) == pre.value_valid(x),
            new.op(u.op).operands@ == pre.op(u.op).operands@.push(opd),
            forall|p: OpPtr| pre.op_valid(p) && p != u.op ==> #[trigger] new.op(p).operands@ == pre.op(p).operands@,
            new.uses_of(val) == pre.uses_of(val).push(u),
            forall|x: Value| pre.value_valid(x) && x != val ==> #[trigger] new.uses_of(x) == pre.uses_of(x),
        ensures
            new.wf(),
    {
        assert forall|x: Value, k: int|
            new.value_valid(x) && 0 <= k < new.uses_of(x).len() implies #[trigger] new.use_ok(x, k) by {
            if x == val && k == pre.uses_of(x).len() {
                assert(new.uses_of(x)[k] == u);
            } else {
                assert(pre.use_ok(x, k));
                let w = pre.uses_of(x)[k];
                assert(new.uses_of(x)[k] == w);
                if w.op != u.op {
                    assert(new.op(w.op).operands@ == pre.op(w.op).operands@);
                }
            }
        }
        assert forall|x: Value| new.value_valid(x) implies (#[trigger] new.uses_of(x)).no_duplicates() by {
            assert(pre.uses_of(x).no_duplicates());
            if x == val {
                assert forall|k: int| 0 <= k < pre.uses_of(x).len() implies pre.uses_of(x)[k] != u by {
                    assert(pre.use_ok(x, k));
                }
            }
        }
        assert forall|p: OpPtr, k: usize| new.op_live(p) && k < new.num_operands(p) implies #[trigger] new.slot_recorded(p, k) by {
            assert(new.ops@[p.idx as int].live == pre.ops@[p.idx as int].live);
            if p == u.op && k == pre.num_operands(p) {
                assert(new.operand(p, k as int) == opd);
            } else {
                if p == u.op {
                    assert(new.operand(p, k as int) == pre.operand(p, k as int));
                } else {
                    assert(new.op(p).operands@ == pre.op(p).operands@);
                }
                assert(pre.slot_recorded(p, k));
            }
        }
        Context::lemma_same_shape_wf(new, pre);
    }

    /// No slot of a new operation, whose operands all existed before it, is a
    /// use of one of its own results.
    pub(crate) proof fn lemma_uses_from_not_new(o: OpPtr, operands: Seq<Value>, v: Value, n: nat, before: &Context)
        requires
            o.idx == before.num_ops(),
            v matches Value::OpResult { op, .. } && op == o,
            n <= operands.len(),
            forall|k: int| 0 <= k < operands.len() ==> before.value_valid(#[trigger] operands[k]),
        ensures
            uses_from(o, operands, v, n).len() == 0,
        decreases n,
    {
        if n > 0 {
            Context::lemma_uses_from_not_new(o, operands, v, (n - 1) as nat, before);
            assert(before.value_valid(operands[n - 1]));
        }
    }
}

} // verus!
