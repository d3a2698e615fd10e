//! The def-use graph: use-lists of values and the operand slots that consume them.
use vstd::prelude::*;

use crate::context::{Context, OpPtr, Operand, Use, UseRef, Value};

verus! {

/// The entries of use-list `s` that do not belong to operation `o`, in order.
pub open spec fn without_op(s: Seq<UseRef>, o: OpPtr) -> Seq<UseRef>
    decreases s.len(),
{
    if s.len() == 0 {
        s
    } else {
        let rest = without_op(s.drop_last(), o);
        if s.last().op != o {
            rest.push(s.last())
        } else {
            rest
        }
    }
}

pub proof fn lemma_without_op(s: Seq<UseRef>, o: OpPtr)
    ensures
        forall|x: UseRef| #[trigger] without_op(s, o).contains(x) <==> s.contains(x) && x.op != o,
        s.no_duplicates() ==> without_op(s, o).no_duplicates(),
        without_op(without_op(s, o), o) == without_op(s, o),
        (forall|i: int| 0 <= i < s.len() ==> (#[trigger] s[i]).op != o) ==> without_op(s, o) == s,
    decreases s.len(),
{
    if s.len() > 0 {
        let d = s.drop_last();
        lemma_without_op(d, o);
        let w = without_op(d, o);
        assert(s == d.push(s.last()));
        assert forall|x: UseRef| #[trigger] without_op(s, o).contains(x) <==> s.contains(x) && x.op != o by {
            if s.contains(x) {
                let i = choose|i: int| 0 <= i < s.len() && s[i] == x;
                if i < d.len() {
                    assert(d[i] == x);
                }
            }
            if d.contains(x) {
                let i = choose|i: int| 0 <= i < d.len() && d[i] == x;
                assert(s[i] == x);
            }
            if s.last().op != o {
                if w.push(s.last()).contains(x) {
                    let i = choose|i: int| 0 <= i < w.len() + 1 && w.push(s.last())[i] == x;
                    if i < w.len() {
                        assert(w[i] == x);
                    }
                }
                if w.contains(x) {
                    let i = choose|i: int| 0 <= i < w.len() && w[i] == x;
                    assert(w.push(s.last())[i] == x);
                }
                if x == s.last() {
                    assert(w.push(s.last())[w.len() as int] == x);
                }
            }
        }
        if s.no_duplicates() {
            assert(d.no_duplicates()) by {
                assert forall|i: int, j: int| 0 <= i < d.len() && 0 <= j < d.len() && i != j implies d[i] != d[j] by {
                    assert(s[i] == d[i] && s[j] == d[j]);
                }
            }
            if s.last().op != o {
                assert(!d.contains(s.last())) by {
                    if d.contains(s.last()) {
                        let i = choose|i: int| 0 <= i < d.len() && d[i] == s.last();
                        assert(s[i] == s[s.len() - 1]);
                    }
                }
                assert(!w.contains(s.last()));
                let wp = w.push(s.last());
                assert forall|i: int, j: int| 0 <= i < wp.len() && 0 <= j < wp.len() && i != j implies wp[i] != wp[j] by {
                    if i < w.len() && j < w.len() {
                    } else if i < w.len() {
                        assert(w.contains(w[i]));
                    } else {
                        assert(w.contains(w[j]));
                    }
                }
            }
        }
        // idempotence
        if s.last().op != o {
            assert(w.push(s.last()).drop_last() == w);
            assert(without_op(w.push(s.last()), o) == without_op(w, o).push(s.last()));
        }
        if forall|i: int| 0 <= i < s.len() ==> (#[trigger] s[i]).op != o {
            assert forall|i: int| 0 <= i < d.len() implies (#[trigger] d[i]).op != o by {
                assert(s[i] == d[i]);
            }
            assert(s.last() == s[s.len() - 1]);
        }
    }
}

impl Context {
    /// The operand in slot `k` of operation `o`.
    pub fn get_operand(&self, o: OpPtr, k: usize) -> (r: Operand)
        requires
            self.op_valid(o),
            k < self.num_operands(o),
        ensures
            r == self.operand(o, k as int),
    {
        self.ops[o.idx].operands[k]
    }

    /// The number of operand slots of operation `o`.
    pub fn get_num_operands(&self, o: OpPtr) -> (r: usize)
        requires
            self.op_valid(o),
        ensures
            r == self.num_operands(o),
    {
        self.ops[o.idx].operands.len()
    }

    /// The block that operation `o` is linked into, if any.
    pub fn get_op_parent(&self, o: OpPtr) -> (r: Option<crate::context::BlockPtr>)
        requires
            self.wf(),
            self.op_valid(o),
        ensures
            r == self.op_parent(o),
    {
        match self.op_links.get_links(o.idx).container {
            Some(c) => Some(crate::context::BlockPtr { idx: c }),
            None => None,
        }
    }

    /// Whether `v` names a result or an argument that exists.
    pub fn is_value_valid(&self, v: Value) -> (r: bool)
        ensures
            r == self.value_valid(v),
    {
        match v {
            Value::OpResult { op, res_idx } => op.idx < self.ops.len() && res_idx < self.ops[op.idx].results.len(),
            Value::BlockArgument { block, arg_idx } => block.idx < self.blocks.len() && arg_idx
                < self.blocks[block.idx].args.len(),
        }
    }

    /// Whether operation `o` is live.
    pub fn is_op_live(&self, o: OpPtr) -> (r: bool)
        ensures
            r == self.op_live(o),
    {
        o.idx < self.ops.len() && self.ops[o.idx].live
    }

    /// Whether block `b` is live.
    pub fn is_block_live(&self, b: crate::context::BlockPtr) -> (r: bool)
        ensures
            r == self.block_live(b),
    {
        b.idx < self.blocks.len() && self.blocks[b.idx].live
    }

    /// Appends `u` to the use-list of `v`; returns the token of the new entry.
    pub(crate) fn push_use(&mut self, v: Value, u: UseRef) -> (tok: Use)
        requires
            old(self).value_valid(v),
        ensures
            final(self).same_shape(old(self)),
            tok.idx == old(self).uses_of(v).len(),
            final(self).uses_of(v) == old(self).uses_of(v).push(u),
            forall|w: Value|
                old(self).value_valid(w) && w != v ==> #[trigger] final(self).uses_of(w) == old(self).uses_of(w),
            forall|o: OpPtr| old(self).op_valid(o) ==> #[trigger] final(self).op(o).operands@ == old(self).op(o).operands@,
    {
        match v {
            Value::OpResult { op, res_idx } => {
                let tok = Use { idx: self.ops[op.idx].results[res_idx].uses.len() };
                self.ops[op.idx].results[res_idx].uses.push(u);
                tok
            },
            Value::BlockArgument { block, arg_idx } => {
                let tok = Use { idx: self.blocks[block.idx].args[arg_idx].uses.len() };
                self.blocks[block.idx].args[arg_idx].uses.push(u);
                tok
            },
        }
    }

    /// Appends `opd` to the operand slots of `o`.
    pub(crate) fn push_operand(&mut self, o: OpPtr, opd: Operand)
        requires
            old(self).op_valid(o),
        ensures
            final(self).same_shape(old(self)),
            final(self).op(o).operands@ == old(self).op(o).operands@.push(opd),
            forall|p: OpPtr|
                old(self).op_valid(p) && p != o ==> #[trigger] final(self).op(p).operands@ == old(self).op(
                    p,
                ).operands@,
            forall|w: Value| old(self).value_valid(w) ==> #[trigger] final(self).uses_of(w) == old(self).uses_of(w),
    {
        self.ops[o.idx].operands.push(opd);
    }

    /// Overwrites operand slot `k` of `o` with `opd`.
    pub(crate) fn set_operand(&mut self, o: OpPtr, k: usize, opd: Operand)
        requires
            old(self).op_valid(o),
            k < old(self).num_operands(o),
        ensures
            final(self).same_shape(old(self)),
            final(self).op(o).operands@ == old(self).op(o).operands@.update(k as int, opd),
            forall|p: OpPtr|
                old(self).op_valid(p) && p != o ==> #[trigger] final(self).op(p).operands@ == old(self).op(
                    p,
                ).operands@,
            forall|w: Value| old(self).value_valid(w) ==> #[trigger] final(self).uses_of(w) == old(self).uses_of(w),
    {
        self.ops[o.idx].operands.set(k, opd);
    }

    /// Empties the use-list of `v`; returns what it held.
    pub(crate) fn take_uses(&mut self, v: Value) -> (r: Vec<UseRef>)
        requires
            old(self).value_valid(v),
        ensures
            final(self).same_shape(old(self)),
            r@ == old(self).uses_of(v),
            final(self).uses_of(v) == Seq::<UseRef>::empty(),
            forall|w: Value|
                old(self).value_valid(w) && w != v ==> #[trigger] final(self).uses_of(w) == old(self).uses_of(w),
            forall|o: OpPtr| old(self).op_valid(o) ==> #[trigger] final(self).op(o).operands@ == old(self).op(o).operands@,
    {
        match v {
            Value::OpResult { op, res_idx } => {
                let mut r: Vec<UseRef> = Vec::new();
                std::mem::swap(&mut r, &mut self.ops[op.idx].results[res_idx].uses);
                r
            },
            Value::BlockArgument { block, arg_idx } => {
                let mut r: Vec<UseRef> = Vec::new();
                std::mem::swap(&mut r, &mut self.blocks[block.idx].args[arg_idx].uses);
                r
            },
        }
    }

    /// Replaces the use-list of `v` with `uses`.
    pub(crate) fn set_uses(&mut self, v: Value, uses: Vec<UseRef>)
        requires
            old(self).value_valid(v),
        ensures
            final(self).same_shape(old(self)),
            final(self).uses_of(v) == uses@,
            forall|w: Value|
                old(self).value_valid(w) && w != v ==> #[trigger] final(self).uses_of(w) == old(self).uses_of(w),
            forall|o: OpPtr| old(self).op_valid(o) ==> #[trigger] final(self).op(o).operands@ == old(self).op(o).operands@,
    {
        match v {
            Value::OpResult { op, res_idx } => {
                self.ops[op.idx].results[res_idx].uses = uses;
            },
            Value::BlockArgument { block, arg_idx } => {
                self.blocks[block.idx].args[arg_idx].uses = uses;
            },
        }
    }

    /// Removes from the use-list of `v` every entry of the freed operation
    /// `o`; the slots whose entries stay get, as token, their new position.
    pub(crate) fn drop_uses_by(&mut self, v: Value, o: OpPtr)
        requires
            old(self).wf(),
            old(self).value_valid(v),
            !old(self).op_live(o),
        ensures
            final(self).wf(),
            final(self).same_shape(old(self)),
            final(self).uses_of(v) == without_op(old(self).uses_of(v), o),
            forall|w: Value|
                old(self).value_valid(w) && w != v ==> #[trigger] final(self).uses_of(w) == old(self).uses_of(w),
            forall|p: OpPtr| old(self).op_valid(p) ==> #[trigger] final(self).num_operands(p) == old(self).num_operands(p),
            forall|p: OpPtr, k: usize|
                old(self).op_valid(p) && k < old(self).num_operands(p) ==> (#[trigger] final(self).operand(p, k as int)).def
                    == old(self).operand(p, k as int).def,
    {
        let ghost s = self.uses_of(v);
        proof {
            lemma_without_op(s, o);
            assert(s.no_duplicates());
        }
        let list = self.take_uses(v);
        let mut kept: Vec<UseRef> = Vec::new();
        let mut i: usize = 0;
        while i < list.len()
            invariant
                i <= list@.len(),
                kept@ == without_op(list@.subrange(0, i as int), o),
            decreases list@.len() - i,
        {
            let u = list[i];
            assert(list@.subrange(0, i + 1).drop_last() == list@.subrange(0, i as int));
            if u.op != o {
                kept.push(u);
            }
            i = i + 1;
        }
        assert(list@.subrange(0, list@.len() as int) == list@);
        proof {
            Context::lemma_same_shape_values(self, old(self));
        }
        let ghost pre = *self;
        assert forall|p: OpPtr| old(self).op_valid(p) implies #[trigger] self.num_operands(p) == old(self).num_operands(p) by {
            assert(self.op(p).operands@ == old(self).op(p).operands@);
        }
        assert forall|p: OpPtr, k: usize| old(self).op_valid(p) && k < old(self).num_operands(p) implies #[trigger] self.operand(p, k as int) == old(self).operand(p, k as int) by {
            assert(self.op(p).operands@ == old(self).op(p).operands@);
        }
        assert forall|j: int| 0 <= j < kept@.len() implies old(self).slot_valid(#[trigger] kept@[j]) && old(self).operand(kept@[j].op, kept@[j].opd_idx as int).def == v by {
            assert(kept@.contains(kept@[j]));
            let t = choose|t: int| 0 <= t < s.len() && s[t] == kept@[j];
            assert(old(self).use_ok(v, t));
        }
        let mut q: usize = 0;
        while q < kept.len()
            invariant
                old(self).wf(),
                old(self).value_valid(v),
                s == old(self).uses_of(v),
                kept@ == without_op(s, o),
                kept@.no_duplicates(),
                forall|x: UseRef| #[trigger] kept@.contains(x) <==> s.contains(x) && x.op != o,
                q <= kept@.len(),
                forall|j: int| 0 <= j < kept@.len() ==> old(self).slot_valid(#[trigger] kept@[j]) && old(self).operand(kept@[j].op, kept@[j].opd_idx as int).def == v,
                self.same_shape(old(self)),
                forall|w: Value| #[trigger] self.value_valid(w) == old(self).value_valid(w),
                forall|w: Value| old(self).value_valid(w) ==> #[trigger] self.uses_of(w) == pre.uses_of(w),
                forall|p: OpPtr| old(self).op_valid(p) ==> #[trigger] self.num_operands(p) == old(self).num_operands(p),
                forall|j: int|
                    0 <= j < q ==> self.operand((#[trigger] kept@[j]).op, kept@[j].opd_idx as int) == (Operand {
                        def: v,
                        token: Use { idx: j as usize },
                    }),
                forall|p: OpPtr, k: usize|
                    old(self).op_valid(p) && k < old(self).num_operands(p) && !kept@.subrange(0, q as int).contains(
                        UseRef { op: p, opd_idx: k },
                    ) ==> #[trigger] self.operand(p, k as int) == old(self).operand(p, k as int),
            decreases kept@.len() - q,
        {
            let u = kept[q];
            proof {
                assert(old(self).slot_valid(kept@[q as int]));
            }
            let ghost before = *self;
            self.set_operand(u.op, u.opd_idx, Operand { def: v, token: Use { idx: q } });
            proof {
                Context::lemma_same_shape_values(self, &before);
                assert forall|p: OpPtr| old(self).op_valid(p) implies #[trigger] self.num_operands(p) == old(self).num_operands(p) by {
                    assert(before.num_operands(p) == old(self).num_operands(p));
                    if p != u.op {
                        assert(self.op(p).operands@ == before.op(p).operands@);
                    }
                }
                assert forall|j: int| 0 <= j < q + 1 implies self.operand((#[trigger] kept@[j]).op, kept@[j].opd_idx as int) == (Operand {
                    def: v,
                    token: Use { idx: j as usize },
                }) by {
                    let x = kept@[j];
                    if j < q {
                        assert(x != u);
                        assert(before.operand(x.op, x.opd_idx as int) == (Operand { def: v, token: Use { idx: j as usize } }));
                        if x.op != u.op {
                            assert(self.op(x.op).operands@ == before.op(x.op).operands@);
                        }
                    }
                }
                assert forall|p: OpPtr, k: usize|
                    old(self).op_valid(p) && k < old(self).num_operands(p) && !kept@.subrange(0, q + 1).contains(
                        UseRef { op: p, opd_idx: k },
                    ) implies #[trigger] self.operand(p, k as int) == old(self).operand(p, k as int) by {
                    assert(kept@.subrange(0, q + 1)[q as int] == u);
                    assert(!kept@.subrange(0, q as int).contains(UseRef { op: p, opd_idx: k })) by {
                        if kept@.subrange(0, q as int).contains(UseRef { op: p, opd_idx: k }) {
                            let t = choose|t: int| 0 <= t < q && #[trigger] kept@.subrange(0, q as int)[t] == UseRef { op: p, opd_idx: k };
                            assert(kept@.subrange(0, q + 1)[t] == kept@.subrange(0, q as int)[t]);
                        }
                    }
                    assert(before.operand(p, k as int) == old(self).operand(p, k as int));
                    if p != u.op {
                        assert(self.op(p).operands@ == before.op(p).operands@);
                    }
                }
            }
            q = q + 1;
        }
        assert(kept@.subrange(0, kept@.len() as int) == kept@);
        let ghost renumbered = *self;
        self.set_uses(v, kept);
        proof {
            Context::lemma_same_shape_values(self, old(self));
            let ks = without_op(s, o);
            assert forall|p: OpPtr| old(self).op_valid(p) implies #[trigger] self.num_operands(p) == old(self).num_operands(p)
                && self.op(p).operands@ == renumbered.op(p).operands@ by {
                assert(renumbered.op_valid(p));
                assert(self.op(p).operands@ == renumbered.op(p).operands@);
                assert(renumbered.num_operands(p) == old(self).num_operands(p));
            }
            assert forall|x: Value, k: int|
                self.value_valid(x) && 0 <= k < self.uses_of(x).len() implies #[trigger] self.use_ok(x, k) by {
                if x == v {
                    let u = ks[k];
                    assert(kept@[k] == u);
                    assert(old(self).slot_valid(u));
                    assert(renumbered.operand(u.op, u.opd_idx as int).def == v);
                    assert(self.num_operands(u.op) == old(self).num_operands(u.op));
                } else {
                    assert(old(self).use_ok(x, k));
                    let u = old(self).uses_of(x)[k];
                    assert(self.uses_of(x) == old(self).uses_of(x));
                    if ks.contains(u) {
                        let t = choose|t: int| 0 <= t < s.len() && s[t] == u;
                        assert(old(self).use_ok(v, t));
                    }
                    assert(!ks.subrange(0, ks.len() as int).contains(u));
                    assert(self.num_operands(u.op) == old(self).num_operands(u.op));
                    assert(renumbered.operand(u.op, u.opd_idx as int) == old(self).operand(u.op, u.opd_idx as int));
                }
            }
            assert forall|x: Value| self.value_valid(x) implies (#[trigger] self.uses_of(x)).no_duplicates() by {
                assert(old(self).uses_of(x).no_duplicates());
            }
            assert forall|p: OpPtr, k: usize| self.op_live(p) && k < self.num_operands(p) implies #[trigger] self.slot_recorded(p, k) by {
                assert(self.ops@[p.idx as int].live == old(self).ops@[p.idx as int].live);
                assert(self.op(p).operands@ == renumbered.op(p).operands@);
                assert(self.num_operands(p) == old(self).num_operands(p));
                let su = UseRef { op: p, opd_idx: k };
                if ks.contains(su) {
                    let j = choose|j: int| 0 <= j < ks.len() && ks[j] == su;
                    assert(kept@[j] == su);
                    assert(ks[j] == su);
                } else {
                    assert(!ks.subrange(0, ks.len() as int).contains(su));
                    assert(renumbered.operand(p, k as int) == old(self).operand(p, k as int));
                    assert(old(self).op_live(p));
                    assert(old(self).slot_recorded(p, k));
                    let d = old(self).operand(p, k as int).def;
                    if d == v {
                        let tk = old(self).operand(p, k as int).token.idx;
                        assert(s[tk as int] == su);
                        assert(s.contains(su));
                    } else {
                        assert(self.uses_of(d) == old(self).uses_of(d));
                    }
                }
            }
            Context::lemma_same_shape_wf(self, old(self));
            assert forall|p: OpPtr, k: usize|
                old(self).op_valid(p) && k < old(self).num_operands(p) implies (#[trigger] self.operand(p, k as int)).def
                == old(self).operand(p, k as int).def by {
                assert(self.op(p).operands@ == renumbered.op(p).operands@);
                assert(self.num_operands(p) == old(self).num_operands(p));
                let su = UseRef { op: p, opd_idx: k };
                if ks.contains(su) {
                    let j = choose|j: int| 0 <= j < ks.len() && ks[j] == su;
                    assert(kept@[j] == su);
                    assert(renumbered.operand(su.op, su.opd_idx as int).def == v);
                    assert(old(self).operand(su.op, su.opd_idx as int).def == v);
                } else {
                    assert(!ks.subrange(0, ks.len() as int).contains(su));
                    assert(renumbered.operand(p, k as int) == old(self).operand(p, k as int));
                }
            }
            assert forall|p: OpPtr| old(self).op_valid(p) implies #[trigger] self.num_operands(p) == old(self).num_operands(p) by {
                assert(self.op(p).operands@ == renumbered.op(p).operands@);
            }
        }
    }

    /// Contexts of the same shape have the same values and operand counts.
    pub(crate) proof fn lemma_same_shape_values(new: &Context, old: &Context)
        requires
            new.same_shape(old),
        ensures
            forall|v: Value| #[trigger] new.value_valid(v) == old.value_valid(v),
    {
        assert forall|v: Value| #[trigger] new.value_valid(v) == old.value_valid(v) by {
            match v {
                Value::OpResult { op, res_idx } => {
                    if op.idx < old.ops@.len() {
                        assert(new.ops@[op.idx as int].results@.len() == old.ops@[op.idx as int].results@.len());
                    }
                },
                Value::BlockArgument { block, arg_idx } => {
                    if block.idx < old.blocks@.len() {
                        assert(new.blocks@[block.idx as int].args@.len() == old.blocks@[block.idx as int].args@.len());
                    }
                },
            }
        }
    }

    /// A context of the same shape as a well-formed one is well-formed once
    /// its use-lists agree with its operand slots.
    pub(crate) proof fn lemma_same_shape_wf(new: &Context, old: &Context)
        requires
            old.wf(),
            new.same_shape(old),
            forall|v: Value, k: int|
                new.value_valid(v) && 0 <= k < new.uses_of(v).len() ==> #[trigger] new.use_ok(v, k),
            forall|v: Value| new.value_valid(v) ==> (#[trigger] new.uses_of(v)).no_duplicates(),
            forall|o: OpPtr, k: usize| new.op_live(o) && k < new.num_operands(o) ==> #[trigger] new.slot_recorded(o, k),
        ensures
            new.wf(),
    {
        assert forall|i: int| 0 <= i < new.ops@.len() implies (#[trigger] new.ops@[i]).self_ptr.idx == i by {
            assert(old.ops@[i].self_ptr.idx == i);
        }
        assert forall|i: int| 0 <= i < new.blocks@.len() implies (#[trigger] new.blocks@[i]).self_ptr.idx == i by {
            assert(old.blocks@[i].self_ptr.idx == i);
        }
        assert forall|i: int| 0 <= i < new.regions@.len() implies (#[trigger] new.regions@[i]).self_ptr.idx == i by {
            assert(old.regions@[i].self_ptr.idx == i);
        }
        assert forall|b: int, i: int|
            0 <= b < new.blocks@.len() && 0 <= i < new.blocks@[b].args@.len() implies #[trigger] new.arg_ok(b, i) by {
            assert(old.arg_ok(b, i));
            assert(new.blocks@[b].args@[i].def_block == old.blocks@[b].args@[i].def_block);
        }
    }
}

impl Value {
    /// The operation that defines this value, if it is a result.
    pub fn get_defining_op(&self) -> (r: Option<OpPtr>)
        ensures
            r == (match *self {
                Value::OpResult { op, .. } => Some(op),
                Value::BlockArgument { .. } => None,
            }),
    {
        match *self {
            Value::OpResult { op, .. } => Some(op),
            Value::BlockArgument { .. } => None,
        }
    }

    /// The position of this value among its operation's results or its
    /// block's arguments.
    pub fn get_def_index(&self) -> (r: usize)
        ensures
            r == (match *self {
                Value::OpResult { res_idx, .. } => res_idx,
                Value::BlockArgument { arg_idx, .. } => arg_idx,
            }),
    {
        match *self {
            Value::OpResult { res_idx, .. } => res_idx,
            Value::BlockArgument { arg_idx, .. } => arg_idx,
        }
    }

    /// The block this value belongs to: the block of a block argument, or the
    /// block that holds the defining operation, if any.
    pub fn get_parent_block(&self, ctx: &Context) -> (r: Option<crate::context::BlockPtr>)
        requires
            ctx.wf(),
            ctx.value_valid(*self),
        ensures
            r == (match *self {
                Value::OpResult { op, .. } => ctx.op_parent(op),
                Value::BlockArgument { block, .. } => Some(block),
            }),
    {
        match *self {
            Value::OpResult { op, .. } => ctx.get_op_parent(op),
            Value::BlockArgument { block, .. } => Some(block),
        }
    }

    /// The use-list of this value.
    pub fn get_uses<'a>(&self, ctx: &'a Context) -> (r: &'a Vec<UseRef>)
        requires
            ctx.value_valid(*self),
        ensures
            r@ == ctx.uses_of(*self),
    {
        match *self {
            Value::OpResult { op, res_idx } => &ctx.ops[op.idx].results[res_idx].uses,
            Value::BlockArgument { block, arg_idx } => &ctx.blocks[block.idx].args[arg_idx].uses,
        }
    }
    /// Moves every use of `self` to `new_val`: each recorded operand slot is
    /// rewired to `new_val` with a fresh token, in the order of the use-list,
    /// and `self` is left without uses.
    pub fn replace_all_uses_with(&self, ctx: &mut Context, new_val: Value)
        requires
            old(ctx).wf(),
            old(ctx).value_valid(*self),
            old(ctx).value_valid(new_val),
            *self != new_val,
        ensures
            final(ctx).wf(),
            final(ctx).same_shape(old(ctx)),
            final(ctx).uses_of(*self) == Seq::<UseRef>::empty(),
            final(ctx).uses_of(new_val) == old(ctx).uses_of(new_val) + old(ctx).uses_of(*self),
            forall|w: Value|
                old(ctx).value_valid(w) && w != *self && w != new_val ==> #[trigger] final(ctx).uses_of(w)
                    == old(ctx).uses_of(w),
            forall|k: int|
                0 <= k < old(ctx).uses_of(*self).len() ==> {
                    let u = #[trigger] old(ctx).uses_of(*self)[k];
                    &&& final(ctx).operand(u.op, u.opd_idx as int).def == new_val
                    &&& final(ctx).operand(u.op, u.opd_idx as int).token.idx == old(ctx).uses_of(new_val).len() + k
                },
            forall|b: crate::context::BlockPtr|
                old(ctx).block_valid(b) ==> #[trigger] final(ctx).attributes_of(b) == old(ctx).attributes_of(b),
            forall|o: OpPtr, j: usize|
                old(ctx).op_valid(o) && j < old(ctx).num_operands(o) && !old(ctx).uses_of(*self).contains(
                    UseRef { op: o, opd_idx: j },
                ) ==> #[trigger] final(ctx).operand(o, j as int) == old(ctx).operand(o, j as int),
            forall|o: OpPtr| old(ctx).op_valid(o) ==> #[trigger] final(ctx).num_operands(o) == old(ctx).num_operands(o),
            forall|o: OpPtr, k: usize|
                final(ctx).op_live(o) && k < final(ctx).num_operands(o) ==> (#[trigger] final(ctx).operand(o, k as int)).def
                    != *self,
    {
        let v = *self;
        let ghost old_uses = ctx.uses_of(v);
        proof {
            assert(old(ctx).uses_of(v).no_duplicates());
        }
        let uses = ctx.take_uses(v);
        proof {
            Context::lemma_same_shape_values(ctx, old(ctx));
            assert forall|o: OpPtr| old(ctx).op_valid(o) implies #[trigger] ctx.num_operands(o) == old(
                ctx,
            ).num_operands(o) by {
                assert(ctx.op(o).operands@ == old(ctx).op(o).operands@);
            }
            assert forall|o: OpPtr, j: usize| old(ctx).op_valid(o) && j < old(ctx).num_operands(o)
                implies #[trigger] ctx.operand(o, j as int) == old(ctx).operand(o, j as int) by {
                assert(ctx.op(o).operands@ == old(ctx).op(o).operands@);
            }
        }
        let mut k: usize = 0;
        while k < uses.len()
            invariant
                ctx.same_shape(old(ctx)),
                forall|w: Value| #[trigger] ctx.value_valid(w) == old(ctx).value_valid(w),
                old(ctx).wf(),
                old(ctx).value_valid(v),
                old(ctx).value_valid(new_val),
                v != new_val,
                k <= uses@.len(),
                uses@ == old_uses,
                old_uses == old(ctx).uses_of(v),
                old_uses.no_duplicates(),
                ctx.uses_of(v) == Seq::<UseRef>::empty(),
                ctx.uses_of(new_val) == old(ctx).uses_of(new_val) + old_uses.subrange(0, k as int),
                forall|w: Value|
                    old(ctx).value_valid(w) && w != v && w != new_val ==> #[trigger] ctx.uses_of(w)
                        == old(ctx).uses_of(w),
                forall|o: OpPtr|
                    old(ctx).op_valid(o) ==> #[trigger] ctx.num_operands(o) == old(ctx).num_operands(o),
                forall|j: int|
                    0 <= j < k ==> {
                        let u = #[trigger] old_uses[j];
                        &&& ctx.operand(u.op, u.opd_idx as int).def == new_val
                        &&& ctx.operand(u.op, u.opd_idx as int).token.idx == old(ctx).uses_of(new_val).len() + j
                    },
                forall|o: OpPtr, j: usize|
                    old(ctx).op_valid(o) && j < old(ctx).num_operands(o) && !old_uses.subrange(
                        0,
                        k as int,
                    ).contains(UseRef { op: o, opd_idx: j }) ==> #[trigger] ctx.operand(o, j as int)
                        == old(ctx).operand(o, j as int),
            decreases uses@.len() - k,
        {
            let u = uses[k];
            proof {
                assert(old(ctx).use_ok(v, k as int));
            }
            assert(ctx.num_operands(u.op) == old(ctx).num_operands(u.op));
            let ghost pre = *ctx;
            let tok = ctx.push_use(new_val, u);
            assert(ctx.op(u.op).operands@ == pre.op(u.op).operands@);
            ctx.set_operand(u.op, u.opd_idx, Operand { def: new_val, token: tok });
            assert(old_uses.subrange(0, k + 1) == old_uses.subrange(0, k as int).push(u));
            k = k + 1;
            assert forall|o: OpPtr| old(ctx).op_valid(o) implies #[trigger] ctx.num_operands(o) == old(
                ctx,
            ).num_operands(o) by {
                assert(pre.num_operands(o) == old(ctx).num_operands(o));
                if o != u.op {
                    assert(ctx.op(o).operands@ == pre.op(o).operands@);
                } else {
                    assert(ctx.op(o).operands@ == pre.op(o).operands@.update(u.opd_idx as int, Operand { def: new_val, token: tok }));
                }
            }
            assert forall|o: OpPtr, j: usize|
                old(ctx).op_valid(o) && j < old(ctx).num_operands(o) && !old_uses.subrange(
                    0,
                    k as int,
                ).contains(UseRef { op: o, opd_idx: j }) implies #[trigger] ctx.operand(o, j as int)
                == old(ctx).operand(o, j as int) by {
                if o != u.op {
                    assert(ctx.op(o).operands@ == pre.op(o).operands@);
                } else {
                    assert(ctx.op(o).operands@ == pre.op(o).operands@.update(u.opd_idx as int, Operand { def: new_val, token: tok }));
                }
                assert(!old_uses.subrange(0, k - 1).contains(UseRef { op: o, opd_idx: j })) by {
                    if old_uses.subrange(0, k - 1).contains(UseRef { op: o, opd_idx: j }) {
                        let t = choose|t: int|
                            0 <= t < k - 1 && #[trigger] old_uses.subrange(0, k - 1)[t] == UseRef { op: o, opd_idx: j };
                        assert(old_uses.subrange(0, k as int)[t] == old_uses.subrange(0, k - 1)[t]);
                    }
                }
                if o == u.op {
                    assert(UseRef { op: o, opd_idx: j } != u) by {
                        assert(old_uses.subrange(0, k as int)[k - 1] == u);
                    }
                }
                assert(pre.operand(o, j as int) == old(ctx).operand(o, j as int));
            }
            assert forall|j: int| 0 <= j < k implies {
                let uj = #[trigger] old_uses[j];
                &&& ctx.operand(uj.op, uj.opd_idx as int).def == new_val
                &&& ctx.operand(uj.op, uj.opd_idx as int).token.idx == old(ctx).uses_of(new_val).len() + j
            } by {
                let uj = old_uses[j];
                assert(old(ctx).use_ok(v, j));
                if uj.op != u.op {
                    assert(ctx.op(uj.op).operands@ == pre.op(uj.op).operands@);
                } else {
                    assert(ctx.op(uj.op).operands@ == pre.op(uj.op).operands@.update(u.opd_idx as int, Operand { def: new_val, token: tok }));
                }
                if j < k - 1 {
                    assert(old_uses[j] != old_uses[k - 1]);
                }
            }
        }
        proof {
            assert(old_uses.subrange(0, uses@.len() as int) == old_uses);
            Context::lemma_rauw_wf(ctx, old(ctx), v, new_val);
            assert forall|o: OpPtr, k: usize|
                ctx.op_live(o) && k < ctx.num_operands(o) implies (#[trigger] ctx.operand(o, k as int)).def != v by {
                assert(ctx.slot_recorded(o, k));
            }
        }
    }
}

impl Context {
    /// Well-formedness after every use of `v` was moved to `w`.
    proof fn lemma_rauw_wf(new: &Context, old: &Context, v: Value, w: Value)
        requires
            old.wf(),
            new.same_shape(old),
            old.value_valid(v),
            old.value_valid(w),
            v != w,
            forall|x: Value| #[trigger] new.value_valid(x) == old.value_valid(x),
            new.uses_of(v) == Seq::<UseRef>::empty(),
            new.uses_of(w) == old.uses_of(w) + old.uses_of(v),
            forall|x: Value|
                old.value_valid(x) && x != v && x != w ==> #[trigger] new.uses_of(x) == old.uses_of(x),
            forall|o: OpPtr| old.op_valid(o) ==> #[trigger] new.num_operands(o) == old.num_operands(o),
            forall|j: int|
                0 <= j < old.uses_of(v).len() ==> {
                    let u = #[trigger] old.uses_of(v)[j];
                    &&& new.operand(u.op, u.opd_idx as int).def == w
                    &&& new.operand(u.op, u.opd_idx as int).token.idx == old.uses_of(w).len() + j
                },
            forall|o: OpPtr, j: usize|
                old.op_valid(o) && j < old.num_operands(o) && !old.uses_of(v).contains(
                    UseRef { op: o, opd_idx: j },
                ) ==> #[trigger] new.operand(o, j as int) == old.operand(o, j as int),
        ensures
            new.wf(),
    {
        let ov = old.uses_of(v);
        let ow = old.uses_of(w);
        assert forall|x: Value, k: int|
            new.value_valid(x) && 0 <= k < new.uses_of(x).len() implies #[trigger] new.use_ok(x, k) by {
            if x == w {
                if k < ow.len() {
                    let u = ow[k];
                    assert(old.use_ok(w, k));
                    if ov.contains(u) {
                        let t = choose|t: int| 0 <= t < ov.len() && #[trigger] ov[t] == u;
                        assert(old.use_ok(v, t));
                    }
                    assert(new.uses_of(x)[k] == u);
                } else {
                    assert(new.uses_of(x)[k] == ov[k - ow.len()]);
                    assert(old.use_ok(v, k - ow.len()));
                }
            } else if x != v {
                let u = new.uses_of(x)[k];
                assert(old.use_ok(x, k));
                if ov.contains(u) {
                    let t = choose|t: int| 0 <= t < ov.len() && #[trigger] ov[t] == u;
                    assert(old.use_ok(v, t));
                }
            }
        }
        assert forall|x: Value| new.value_valid(x) implies (#[trigger] new.uses_of(x)).no_duplicates() by {
            assert(old.uses_of(x).no_duplicates());
            if x == w {
                assert(ov.no_duplicates());
                assert forall|i: int, j: int|
                    0 <= i < ow.len() + ov.len() && 0 <= j < ow.len() + ov.len() && i != j implies (ow
                    + ov)[i] != (ow + ov)[j] by {
                    if i < ow.len() && j >= ow.len() {
                        assert(old.use_ok(w, i));
                        assert(old.use_ok(v, j - ow.len()));
                    } else if j < ow.len() && i >= ow.len() {
                        assert(old.use_ok(w, j));
                        assert(old.use_ok(v, i - ow.len()));
                    }
                }
            }
        }
        assert forall|p: OpPtr, k: usize| new.op_live(p) && k < new.num_operands(p) implies #[trigger] new.slot_recorded(p, k) by {
            assert(new.ops@[p.idx as int].live == old.ops@[p.idx as int].live);
            let s = UseRef { op: p, opd_idx: k };
            if ov.contains(s) {
                let j = choose|j: int| 0 <= j < ov.len() && ov[j] == s;
                assert(ov[j] == s);
                assert((ow + ov)[ow.len() + j] == s);
            } else {
                assert(old.slot_recorded(p, k));
                let d = old.operand(p, k as int).def;
                let tk = old.operand(p, k as int).token.idx;
                if d == v {
                    assert(ov[tk as int] == s);
                } else if d == w {
                    assert((ow + ov)[tk as int] == ow[tk as int]);
                }
            }
        }
        Context::lemma_same_shape_wf(new, old);
    }
}

} // verus!
