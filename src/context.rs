//! The allocation context: one arena per node kind, handles, and the nodes.
use vstd::prelude::*;

use crate::attributes::Attributes;
use crate::linked_list::LinkTable;

verus! {

/// Handle of an [Operation] in its context's arena.
#[derive(Clone, Copy, Debug, PartialEq, Eq, Structural, Hash)]
pub struct OpPtr {
    pub idx: usize,
}

/// Handle of a [BasicBlock] in its context's arena.
#[derive(Clone, Copy, Debug, PartialEq, Eq, Structural, Hash)]
pub struct BlockPtr {
    pub idx: usize,
}

/// Handle of a [Region] in its context's arena.
#[derive(Clone, Copy, Debug, PartialEq, Eq, Structural, Hash)]
pub struct RegionPtr {
    pub idx: usize,
}

/// Handle of a type object; the type system itself lives outside this core.
#[derive(Clone, Copy, Debug, PartialEq, Eq, Structural, Hash)]
pub struct TypePtr {
    pub idx: usize,
}

/// Handle of an attribute object; the attribute system lives outside this core.
#[derive(Clone, Copy, Debug, PartialEq, Eq, Structural, Hash)]
pub struct AttrPtr {
    pub idx: usize,
}

/// The derived identity of a value: an operation result or a block argument.
#[derive(Clone, Copy, Debug, PartialEq, Eq, Structural, Hash)]
pub enum Value {
    OpResult { op: OpPtr, res_idx: usize },
    BlockArgument { block: BlockPtr, arg_idx: usize },
}

/// A back-reference from a value's use-list to an operand slot.
#[derive(Clone, Copy, Debug, PartialEq, Eq, Structural, Hash)]
pub struct UseRef {
    pub op: OpPtr,
    pub opd_idx: usize,
}

/// The token handed out when a use is registered: its position in the use-list.
#[derive(Clone, Copy, Debug, PartialEq, Eq, Structural, Hash)]
pub struct Use {
    pub idx: usize,
}

/// An operand slot: the value it consumes and the token of its registration.
#[derive(Clone, Copy, Debug, PartialEq, Eq, Structural, Hash)]
pub struct Operand {
    pub def: Value,
    pub token: Use,
}

/// A result of an operation, with its use-list.
pub struct OpResult {
    pub uses: Vec<UseRef>,
}

/// Argument to a [BasicBlock].
pub struct BlockArgument {
    /// The uses of this argument.
    pub uses: Vec<UseRef>,
    /// The block of which this is an argument.
    pub def_block: BlockPtr,
    /// Index of this argument in the block's list of arguments.
    pub arg_idx: usize,
    /// The type of this argument.
    pub ty: TypePtr,
}

/// An operation: only its operands and results are of concern to this core.
pub struct Operation {
    pub self_ptr: OpPtr,
    pub operands: Vec<Operand>,
    pub results: Vec<OpResult>,
    pub live: bool,
}

/// A basic block contains a list of operations. It may have arguments.
pub struct BasicBlock {
    pub self_ptr: BlockPtr,
    pub label: Option<String>,
    pub args: Vec<BlockArgument>,
    /// A dictionary of attributes.
    pub attributes: Attributes,
    /// The blocks that branch to this one.
    pub preds: Vec<BlockPtr>,
    pub live: bool,
}

/// A region: a container of blocks.
pub struct Region {
    pub self_ptr: RegionPtr,
    pub live: bool,
}

/// Owner of every node. Operations are threaded through blocks, blocks
/// through regions.
pub struct Context {
    pub(crate) ops: Vec<Operation>,
    pub(crate) blocks: Vec<BasicBlock>,
    pub(crate) regions: Vec<Region>,
    /// Elements are operations, containers are blocks.
    pub(crate) op_links: LinkTable,
    /// Elements are blocks, containers are regions.
    pub(crate) block_links: LinkTable,
}

impl Context {
    pub open(crate) spec fn num_ops(&self) -> nat {
        self.ops@.len()
    }

    pub open(crate) spec fn num_blocks(&self) -> nat {
        self.blocks@.len()
    }

    pub open(crate) spec fn num_regions(&self) -> nat {
        self.regions@.len()
    }

    pub open(crate) spec fn op_valid(&self, o: OpPtr) -> bool {
        o.idx < self.ops@.len()
    }

    pub open(crate) spec fn block_valid(&self, b: BlockPtr) -> bool {
        b.idx < self.blocks@.len()
    }

    pub open(crate) spec fn region_valid(&self, r: RegionPtr) -> bool {
        r.idx < self.regions@.len()
    }

    pub open(crate) spec fn op_live(&self, o: OpPtr) -> bool {
        self.op_valid(o) && self.ops@[o.idx as int].live
    }

    pub open(crate) spec fn block_live(&self, b: BlockPtr) -> bool {
        self.block_valid(b) && self.blocks@[b.idx as int].live
    }

    pub open(crate) spec fn region_live(&self, r: RegionPtr) -> bool {
        self.region_valid(r) && self.regions@[r.idx as int].live
    }

    /// The block node that `b` locates.
    pub open(crate) spec fn block(&self, b: BlockPtr) -> BasicBlock {
        self.blocks@[b.idx as int]
    }

    /// The predecessors recorded for block `b`.
    pub open(crate) spec fn preds_of(&self, b: BlockPtr) -> Seq<BlockPtr> {
        self.blocks@[b.idx as int].preds@
    }

    /// The operation node that `o` locates.
    pub open(crate) spec fn op(&self, o: OpPtr) -> Operation {
        self.ops@[o.idx as int]
    }

    pub open(crate) spec fn num_args(&self, b: BlockPtr) -> nat {
        self.blocks@[b.idx as int].args@.len()
    }

    pub open(crate) spec fn num_results(&self, o: OpPtr) -> nat {
        self.ops@[o.idx as int].results@.len()
    }

    pub open(crate) spec fn num_operands(&self, o: OpPtr) -> nat {
        self.ops@[o.idx as int].operands@.len()
    }

    /// The operand in slot `k` of operation `o`.
    pub open(crate) spec fn operand(&self, o: OpPtr, k: int) -> Operand {
        self.ops@[o.idx as int].operands@[k]
    }

    /// The value's identity names a result or an argument that exists.
    pub open(crate) spec fn value_valid(&self, v: Value) -> bool {
        match v {
            Value::OpResult { op, res_idx } => self.op_valid(op) && res_idx < self.num_results(op),
            Value::BlockArgument { block, arg_idx } => self.block_valid(block) && arg_idx
                < self.num_args(block),
        }
    }

    /// The use-list of a value.
    pub open(crate) spec fn uses_of(&self, v: Value) -> Seq<UseRef> {
        match v {
            Value::OpResult { op, res_idx } => self.ops@[op.idx as int].results@[res_idx as int].uses@,
            Value::BlockArgument { block, arg_idx } => self.blocks@[block.idx as int].args@[arg_idx as int].uses@,
        }
    }

    /// The operand slot a use-list entry refers to exists.
    pub open(crate) spec fn slot_valid(&self, u: UseRef) -> bool {
        self.op_valid(u.op) && u.opd_idx < self.num_operands(u.op)
    }

    /// The operations of block `b`, from head to tail.
    pub open(crate) spec fn ops_in(&self, b: BlockPtr) -> Seq<OpPtr> {
        self.op_links.lists()[b.idx as int].map_values(|x: usize| OpPtr { idx: x })
    }

    /// The blocks of region `r`, from head to tail.
    pub open(crate) spec fn blocks_in(&self, r: RegionPtr) -> Seq<BlockPtr> {
        self.block_links.lists()[r.idx as int].map_values(|x: usize| BlockPtr { idx: x })
    }

    /// The `next` link of operation `o`.
    pub open(crate) spec fn next_op(&self, o: OpPtr) -> Option<OpPtr> {
        match self.op_links.links(o.idx as int).next {
            Some(x) => Some(OpPtr { idx: x }),
            None => None,
        }
    }

    /// The `prev` link of operation `o`.
    pub open(crate) spec fn prev_op(&self, o: OpPtr) -> Option<OpPtr> {
        match self.op_links.links(o.idx as int).prev {
            Some(x) => Some(OpPtr { idx: x }),
            None => None,
        }
    }

    /// The block that operation `o` is linked into, if any.
    pub open(crate) spec fn op_parent(&self, o: OpPtr) -> Option<BlockPtr> {
        match self.op_links.links(o.idx as int).container {
            Some(c) => Some(BlockPtr { idx: c }),
            None => None,
        }
    }

    /// The region that block `b` is linked into, if any.
    pub open(crate) spec fn block_parent(&self, b: BlockPtr) -> Option<RegionPtr> {
        match self.block_links.links(b.idx as int).container {
            Some(c) => Some(RegionPtr { idx: c }),
            None => None,
        }
    }

    pub open(crate) spec fn use_ok(&self, v: Value, k: int) -> bool {
        let u = self.uses_of(v)[k];
        self.slot_valid(u) && self.operand(u.op, u.opd_idx as int).def == v
    }

    pub open(crate) spec fn arg_ok(&self, b: int, i: int) -> bool {
        let a = self.blocks@[b].args@[i];
        a.def_block.idx == b && a.arg_idx == i
    }

    /// `self` has the nodes, links and arguments of `o`; use-lists and
    /// operand slots may differ.
    pub open(crate) spec fn same_shape(&self, o: &Context) -> bool {
        &&& self.ops@.len() == o.ops@.len()
        &&& self.blocks@.len() == o.blocks@.len()
        &&& self.regions@ == o.regions@
        &&& self.op_links == o.op_links
        &&& self.block_links == o.block_links
        &&& forall|i: int|
            0 <= i < self.ops@.len() ==> {
                &&& (#[trigger] self.ops@[i]).self_ptr == o.ops@[i].self_ptr
                &&& self.ops@[i].live == o.ops@[i].live
                &&& self.ops@[i].results@.len() == o.ops@[i].results@.len()
            }
        &&& forall|i: int|
            0 <= i < self.blocks@.len() ==> {
                &&& (#[trigger] self.blocks@[i]).self_ptr == o.blocks@[i].self_ptr
                &&& self.blocks@[i].live == o.blocks@[i].live
                &&& self.blocks@[i].label == o.blocks@[i].label
                &&& self.blocks@[i].attributes == o.blocks@[i].attributes
                &&& self.blocks@[i].args@.len() == o.blocks@[i].args@.len()
            }
        &&& forall|i: int, j: int|
            0 <= i < self.blocks@.len() && 0 <= j < self.blocks@[i].args@.len() ==> {
                &&& (#[trigger] self.blocks@[i].args@[j]).def_block == o.blocks@[i].args@[j].def_block
                &&& self.blocks@[i].args@[j].arg_idx == o.blocks@[i].args@[j].arg_idx
                &&& self.blocks@[i].args@[j].ty == o.blocks@[i].args@[j].ty
            }
    }

    /// The operation arena of `self` is that of `o`.
    pub open(crate) spec fn same_ops(&self, o: &Context) -> bool {
        self.ops == o.ops
    }

    /// The block lists of all regions, and the positions in them, are those of `o`.
    pub open(crate) spec fn same_block_links(&self, o: &Context) -> bool {
        self.block_links == o.block_links
    }

    /// Well-formedness of the whole context.
    pub open(crate) spec fn wf(&self) -> bool {
        &&& self.op_links.wf()
        &&& self.block_links.wf()
        &&& self.op_links.num_elems() == self.ops@.len()
        &&& self.op_links.num_containers() == self.blocks@.len()
        &&& self.block_links.num_elems() == self.blocks@.len()
        &&& self.block_links.num_containers() == self.regions@.len()
        &&& forall|i: int| 0 <= i < self.ops@.len() ==> (#[trigger] self.ops@[i]).self_ptr.idx == i
        &&& forall|i: int| 0 <= i < self.blocks@.len() ==> (#[trigger] self.blocks@[i]).self_ptr.idx == i
        &&& forall|i: int| 0 <= i < self.regions@.len() ==> (#[trigger] self.regions@[i]).self_ptr.idx == i
        &&& forall|b: int, i: int|
            0 <= b < self.blocks@.len() && 0 <= i < self.blocks@[b].args@.len() ==> #[trigger] self.arg_ok(b, i)
        &&& forall|v: Value, k: int|
            self.value_valid(v) && 0 <= k < self.uses_of(v).len() ==> #[trigger] self.use_ok(v, k)
        &&& forall|v: Value| self.value_valid(v) ==> (#[trigger] self.uses_of(v)).no_duplicates()
        &&& forall|o: OpPtr, k: usize| self.op_live(o) && k < self.num_operands(o) ==> #[trigger] self.slot_recorded(o, k)
    }

    /// Operand slot `k` of `o` consumes an existing value, and its token is
    /// the position of the slot's entry in that value's use-list.
    pub open(crate) spec fn slot_recorded(&self, o: OpPtr, k: usize) -> bool {
        let opd = self.operand(o, k as int);
        &&& self.value_valid(opd.def)
        &&& opd.token.idx < self.uses_of(opd.def).len()
        &&& self.uses_of(opd.def)[opd.token.idx as int] == (UseRef { op: o, opd_idx: k })
    }

    /// An empty context.
    pub fn new() -> (r: Context)
        ensures
            r.wf(),
            r.num_ops() == 0,
            r.num_blocks() == 0,
            r.num_regions() == 0,
    {
        Context {
            ops: Vec::new(),
            blocks: Vec::new(),
            regions: Vec::new(),
            op_links: LinkTable::new(),
            block_links: LinkTable::new(),
        }
    }

    /// Creates an empty region, linked to nothing.
    pub fn new_region(&mut self) -> (r: RegionPtr)
        requires
            old(self).wf(),
            old(self).num_regions() < usize::MAX,
        ensures
            final(self).wf(),
            r.idx == old(self).num_regions(),
            final(self).num_regions() == old(self).num_regions() + 1,
            final(self).region_live(r),
            final(self).blocks_in(r) == Seq::<BlockPtr>::empty(),
            final(self).keeps_links(old(self)),
            final(self).keeps_nodes(old(self)),
    {
        proof {
            self.block_links.lemma_wf_facts();
        }
        let r = RegionPtr { idx: self.regions.len() };
        self.regions.push(Region { self_ptr: r, live: true });
        self.block_links.push_container();
        assert(self.blocks_in(r) =~= Seq::<BlockPtr>::empty());
        assert(forall|i: int| 0 <= i < self.regions@.len() ==> (#[trigger] self.regions@[i]).self_ptr.idx == i);
        assert forall|v: Value, k: int|
            self.value_valid(v) && 0 <= k < self.uses_of(v).len() implies #[trigger] self.use_ok(v, k) by {
            assert(old(self).use_ok(v, k));
        }
        assert forall|v: Value| self.value_valid(v) implies (#[trigger] self.uses_of(v)).no_duplicates() by {
            assert(old(self).uses_of(v).no_duplicates());
        }
        assert forall|o: OpPtr, k: usize| self.op_live(o) && k < self.num_operands(o) implies #[trigger] self.slot_recorded(o, k) by {
            assert(old(self).slot_recorded(o, k));
        }
        assert forall|b: int, i: int|
            0 <= b < self.blocks@.len() && 0 <= i < self.blocks@[b].args@.len() implies #[trigger] self.arg_ok(b, i) by {
            assert(old(self).arg_ok(b, i));
        }
        r
    }

    /// The lists, parents, positions and neighbours of every block and
    /// operation of `o`, and the block list of every region of `o`, are
    /// unchanged in `self`.
    pub open(crate) spec fn keeps_links(&self, o: &Context) -> bool {
        &&& forall|b: BlockPtr| o.block_valid(b) ==> #[trigger] self.ops_in(b) == o.ops_in(b)
        &&& forall|b: BlockPtr| o.block_valid(b) ==> #[trigger] self.block_parent(b) == o.block_parent(b)
        &&& forall|b: BlockPtr| o.block_valid(b) ==> #[trigger] self.block_position(b) == o.block_position(b)
        &&& forall|r: RegionPtr| o.region_valid(r) ==> #[trigger] self.blocks_in(r) == o.blocks_in(r)
        &&& forall|p: OpPtr| o.op_valid(p) ==> #[trigger] self.op_parent(p) == o.op_parent(p)
        &&& forall|p: OpPtr| o.op_valid(p) ==> #[trigger] self.op_position(p) == o.op_position(p)
        &&& forall|p: OpPtr| o.op_valid(p) ==> #[trigger] self.next_op(p) == o.next_op(p)
        &&& forall|p: OpPtr| o.op_valid(p) ==> #[trigger] self.prev_op(p) == o.prev_op(p)
    }

    /// Every node of `o` is unchanged in `self`.
    pub open(crate) spec fn keeps_nodes(&self, o: &Context) -> bool {
        &&& self.num_ops() >= o.num_ops()
        &&& self.num_blocks() >= o.num_blocks()
        &&& self.num_regions() >= o.num_regions()
        &&& forall|b: BlockPtr| o.block_valid(b) ==> #[trigger] self.block(b) == o.block(b)
        &&& forall|p: OpPtr| o.op_valid(p) ==> #[trigger] self.op(p) == o.op(p)
        &&& forall|r: RegionPtr| o.region_valid(r) ==> #[trigger] self.region_live(r) == o.region_live(r)
    }

    /// Every node of `o` is unchanged in `self` but for its use-lists.
    pub open(crate) spec fn keeps_nodes_but_uses(&self, o: &Context) -> bool {
        &&& self.num_ops() >= o.num_ops()
        &&& self.num_blocks() >= o.num_blocks()
        &&& self.num_regions() >= o.num_regions()
        &&& forall|b: BlockPtr|
            o.block_valid(b) ==> {
                &&& (#[trigger] self.block(b)).self_ptr == o.block(b).self_ptr
                &&& self.block(b).label == o.block(b).label
                &&& self.block(b).attributes == o.block(b).attributes
                &&& self.block(b).live == o.block(b).live
                &&& self.block(b).args@.len() == o.block(b).args@.len()
            }
        &&& forall|b: BlockPtr, i: int|
            o.block_valid(b) && 0 <= i < o.block(b).args@.len() ==> {
                &&& (#[trigger] self.block(b).args@[i]).def_block == o.block(b).args@[i].def_block
                &&& self.block(b).args@[i].arg_idx == o.block(b).args@[i].arg_idx
                &&& self.block(b).args@[i].ty == o.block(b).args@[i].ty
            }
        &&& forall|p: OpPtr|
            o.op_valid(p) ==> {
                &&& (#[trigger] self.op(p)).self_ptr == o.op(p).self_ptr
                &&& self.op(p).operands@ == o.op(p).operands@
                &&& self.op(p).results@.len() == o.op(p).results@.len()
                &&& self.op(p).live == o.op(p).live
            }
        &&& forall|r: RegionPtr| o.region_valid(r) ==> #[trigger] self.region_live(r) == o.region_live(r)
    }

    /// The link tables of `new` extend those of `old`: old elements keep their
    /// links and positions, old containers keep their lists.
    pub(crate) proof fn lemma_keeps_links(new: &Context, old: &Context)
        requires
            old.wf(),
            new.op_links.num_containers() >= old.op_links.num_containers(),
            new.block_links.num_containers() >= old.block_links.num_containers(),
            forall|e: int| 0 <= e < old.op_links.num_elems() ==> new.op_links.links(e) == old.op_links.links(e),
            forall|e: int| 0 <= e < old.op_links.num_elems() ==> new.op_links.position(e) == old.op_links.position(e),
            forall|c: int| 0 <= c < old.op_links.num_containers() ==> new.op_links.lists()[c] == old.op_links.lists()[c],
            forall|e: int| 0 <= e < old.block_links.num_elems() ==> new.block_links.links(e) == old.block_links.links(e),
            forall|e: int| 0 <= e < old.block_links.num_elems() ==> new.block_links.position(e) == old.block_links.position(e),
            forall|c: int| 0 <= c < old.block_links.num_containers() ==> new.block_links.lists()[c] == old.block_links.lists()[c],
        ensures
            new.keeps_links(old),
    {
    }

    /// Read access to the block that `b` locates.
    pub fn deref_block(&self, b: BlockPtr) -> (r: &BasicBlock)
        requires
            self.block_valid(b),
        ensures
            *r == self.block(b),
    {
        &self.blocks[b.idx]
    }

    /// Read access to the operation that `o` locates.
    pub fn deref_op(&self, o: OpPtr) -> (r: &Operation)
        requires
            self.op_valid(o),
        ensures
            *r == self.op(o),
    {
        &self.ops[o.idx]
    }

    /// Position of operation `o` in the list of its block.
    pub open(crate) spec fn op_position(&self, o: OpPtr) -> int {
        self.op_links.position(o.idx as int)
    }

    /// Position of block `b` in the list of its region.
    pub open(crate) spec fn block_position(&self, b: BlockPtr) -> int {
        self.block_links.position(b.idx as int)
    }

    /// `self` is `o` with the operation list of block `b` replaced by `s`;
    /// every node, use-list and region list is as in `o`.
    pub open(crate) spec fn relinked_ops(&self, o: &Context, b: BlockPtr, s: Seq<OpPtr>) -> bool {
        &&& self.ops == o.ops
        &&& self.blocks == o.blocks
        &&& self.regions == o.regions
        &&& self.block_links == o.block_links
        &&& forall|b2: BlockPtr|
            #[trigger] self.block_valid(b2) ==> self.ops_in(b2) == if b2 == b {
                s
            } else {
                o.ops_in(b2)
            }        &&& forall|i: int|
            0 <= i < s.len() ==> self.op_parent(#[trigger] s[i]) == Some(b) && self.op_position(s[i]) == i
    }

    /// `self` is `o` with the block list of region `r` replaced by `s`;
    /// every node, use-list and operation list is as in `o`.
    pub open(crate) spec fn relinked_blocks(&self, o: &Context, r: RegionPtr, s: Seq<BlockPtr>) -> bool {
        &&& self.ops == o.ops
        &&& self.blocks == o.blocks
        &&& self.regions == o.regions
        &&& self.op_links == o.op_links
        &&& forall|r2: RegionPtr|
            #[trigger] self.region_valid(r2) ==> self.blocks_in(r2) == if r2 == r {
                s
            } else {
                o.blocks_in(r2)
            }        &&& forall|i: int|
            0 <= i < s.len() ==> self.block_parent(#[trigger] s[i]) == Some(r) && self.block_position(s[i]) == i
    }

    /// Changing only the links of a well-formed context keeps it well-formed.
    pub(crate) proof fn lemma_links_only_wf(new: &Context, old: &Context)
        requires
            old.wf(),
            new.ops == old.ops,
            new.blocks == old.blocks,
            new.regions == old.regions,
            new.op_links.wf(),
            new.block_links.wf(),
            new.op_links.num_elems() == old.op_links.num_elems(),
            new.op_links.num_containers() == old.op_links.num_containers(),
            new.block_links.num_elems() == old.block_links.num_elems(),
            new.block_links.num_containers() == old.block_links.num_containers(),
        ensures
            new.wf(),
    {
        assert forall|b: int, i: int|
            0 <= b < new.blocks@.len() && 0 <= i < new.blocks@[b].args@.len() implies #[trigger] new.arg_ok(b, i) by {
            assert(old.arg_ok(b, i));
        }
        assert forall|v: Value, k: int|
            new.value_valid(v) && 0 <= k < new.uses_of(v).len() implies #[trigger] new.use_ok(v, k) by {
            assert(old.use_ok(v, k));
        }
        assert forall|v: Value| new.value_valid(v) implies (#[trigger] new.uses_of(v)).no_duplicates() by {
            assert(old.uses_of(v).no_duplicates());
        }
        assert forall|o: OpPtr, k: usize| new.op_live(o) && k < new.num_operands(o) implies #[trigger] new.slot_recorded(o, k) by {
            assert(old.slot_recorded(o, k));
        }
    }
}

} // verus!
