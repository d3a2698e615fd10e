//! Basic blocks: their arguments, their operation lists and their region links.
use vstd::prelude::*;
use vstd::string::StringExecFns;

use crate::attributes::attrs_new;
use crate::context::{BasicBlock, BlockArgument, BlockPtr, Context, OpPtr, RegionPtr, TypePtr, Value};

verus! {

/// The character of decimal digit `d`.
pub open spec fn digit_char(d: nat) -> char {
    if d == 0 {
        '0'
    } else if d == 1 {
        '1'
    } else if d == 2 {
        '2'
    } else if d == 3 {
        '3'
    } else if d == 4 {
        '4'
    } else if d == 5 {
        '5'
    } else if d == 6 {
        '6'
    } else if d == 7 {
        '7'
    } else if d == 8 {
        '8'
    } else {
        '9'
    }
}

/// The decimal notation of `n`, without leading zeros.
pub open spec fn decimal(n: nat) -> Seq<char>
    decreases n,
{
    if n < 10 {
        seq![digit_char(n)]
    } else {
        decimal(n / 10) + seq![digit_char(n % 10)]
    }
}

/// The synthetic name of a block without a label.
pub open spec fn synthetic_block_name(idx: nat) -> Seq<char> {
    seq!['b', 'l', 'o', 'c', 'k'] + decimal(idx)
}

/// The display name of a block: its label, or else its synthetic name.
pub open spec fn block_name(label: Option<String>, idx: nat) -> Seq<char> {
    match label {
        Some(l) => l@,
        None => synthetic_block_name(idx),
    }
}

fn digit_str(d: usize) -> (r: &'static str)
    requires
        d < 10,
    ensures
        r@ == seq![digit_char(d as nat)],
{
    proof {
        reveal_strlit("0");
        reveal_strlit("1");
        reveal_strlit("2");
        reveal_strlit("3");
        reveal_strlit("4");
        reveal_strlit("5");
        reveal_strlit("6");
        reveal_strlit("7");
        reveal_strlit("8");
        reveal_strlit("9");
    }
    if d == 0 {
        "0"
    } else if d == 1 {
        "1"
    } else if d == 2 {
        "2"
    } else if d == 3 {
        "3"
    } else if d == 4 {
        "4"
    } else if d == 5 {
        "5"
    } else if d == 6 {
        "6"
    } else if d == 7 {
        "7"
    } else if d == 8 {
        "8"
    } else {
        "9"
    }
}

/// Appends the decimal notation of `n` to `s`.
pub fn push_decimal(s: &mut String, n: usize)
    ensures
        final(s)@ == old(s)@ + decimal(n as nat),
    decreases n,
{
    if n >= 10 {
        push_decimal(s, n / 10);
        s.append(digit_str(n % 10));
        assert(final(s)@ =~= old(s)@ + decimal(n as nat));
    } else {
        s.append(digit_str(n));
    }
}

/// The operations contained in a block: the ends of its list.
#[derive(Clone, Copy, Debug, PartialEq, Eq, Structural)]
pub struct OpsInBlock {
    pub first: Option<OpPtr>,
    pub last: Option<OpPtr>,
}

impl OpsInBlock {
    /// The ends of an empty list.
    pub fn new_empty() -> (r: OpsInBlock)
        ensures
            r.first.is_none(),
            r.last.is_none(),
    {
        OpsInBlock { first: None, last: None }
    }
}

/// Links a block with its neighbours and its region.
#[derive(Clone, Copy, Debug, PartialEq, Eq, Structural)]
pub struct RegionLinks {
    /// Parent region of this block.
    pub parent_region: Option<RegionPtr>,
    /// The next block in the region's list of blocks.
    pub next_block: Option<BlockPtr>,
    /// The previous block in the region's list of blocks.
    pub prev_block: Option<BlockPtr>,
}

impl RegionLinks {
    /// The links of a block that belongs to no region.
    pub fn new_unlinked() -> (r: RegionLinks)
        ensures
            r.parent_region.is_none(),
            r.next_block.is_none(),
            r.prev_block.is_none(),
    {
        RegionLinks { parent_region: None, next_block: None, prev_block: None }
    }
}

/// What a double-ended walk over `s` has produced after the calls `dirs`
/// (`true` for a call of `next`, `false` for one of `next_back`): the
/// operations returned from the front, those returned from the back, and
/// those not visited yet. Each step is the one the iterator's contracts give.
pub open spec fn interleave(s: Seq<OpPtr>, dirs: Seq<bool>) -> (Seq<OpPtr>, Seq<OpPtr>, Seq<OpPtr>)
    decreases dirs.len(),
{
    if dirs.len() == 0 {
        (Seq::empty(), Seq::empty(), s)
    } else {
        let (f, b, r) = interleave(s, dirs.drop_last());
        if r.len() == 0 {
            (f, b, r)
        } else if dirs.last() {
            (f.push(r[0]), b, r.drop_first())
        } else {
            (f, b.push(r.last()), r.drop_last())
        }
    }
}

/// Any interleaving of front and back steps, as many as there are
/// operations, visits every operation exactly once: the front visits
/// followed by the back visits in reverse give the list itself, and
/// nothing remains. (At that point the iterator's cursors are both cleared,
/// see `Iter::lemma_exhausted`.)
pub proof fn lemma_iter_pairing(s: Seq<OpPtr>, dirs: Seq<bool>)
    requires
        dirs.len() <= s.len(),
    ensures
        ({
            let (f, b, r) = interleave(s, dirs);
            &&& f + r + b.reverse() == s
            &&& r.len() == s.len() - dirs.len()
            &&& f.len() + b.len() == dirs.len()
            &&& dirs.len() == s.len() ==> r.len() == 0 && f + b.reverse() == s
        }),
    decreases dirs.len(),
{
    if dirs.len() > 0 {
        lemma_iter_pairing(s, dirs.drop_last());
        let (f, b, r) = interleave(s, dirs.drop_last());
        if dirs.last() {
            assert(f.push(r[0]) + r.drop_first() + b.reverse() =~= f + r + b.reverse());
        } else {
            assert(b.push(r.last()).reverse() =~= seq![r.last()] + b.reverse());
            assert(f + r.drop_last() + b.push(r.last()).reverse() =~= f + r + b.reverse());
        }
    }
    let (f, b, r) = interleave(s, dirs);
    if dirs.len() == s.len() {
        assert(f + r =~= f);
    }
}

/// A double-ended walk over the operations of a block.
///
/// The operations not yet visited form a contiguous window of the block's
/// list: `next` is its first element, `next_back` its last, and both are
/// `None` exactly when the window is empty.
pub struct Iter {
    next: Option<OpPtr>,
    next_back: Option<OpPtr>,
    block: BlockPtr,
    lo: Ghost<int>,
    hi: Ghost<int>,
}

impl Iter {
    /// The iterator walks block `self.block` of `ctx`.
    pub closed spec fn valid_for(&self, ctx: &Context) -> bool {
        let s = ctx.ops_in(self.block);
        &&& ctx.block_valid(self.block)
        &&& 0 <= self.lo@ <= self.hi@ <= s.len()
        &&& if self.lo@ == self.hi@ {
            self.next.is_none() && self.next_back.is_none()
        } else {
            self.next == Some(s[self.lo@]) && self.next_back == Some(s[self.hi@ - 1])
        }
    }

    /// The operations not visited yet, in list order.
    pub closed spec fn remaining(&self, ctx: &Context) -> Seq<OpPtr> {
        ctx.ops_in(self.block).subrange(self.lo@, self.hi@)
    }

    /// Both cursors are cleared.
    pub closed spec fn exhausted(&self) -> bool {
        self.next.is_none() && self.next_back.is_none()
    }

    pub proof fn lemma_exhausted(&self, ctx: &Context)
        requires
            self.valid_for(ctx),
        ensures
            self.exhausted() <==> self.remaining(ctx).len() == 0,
            self.cursors().0.is_none() <==> self.cursors().1.is_none(),
            self.cursors().0 == (if self.remaining(ctx).len() == 0 {
                None
            } else {
                Some(self.remaining(ctx)[0])
            }),
            self.cursors().1 == (if self.remaining(ctx).len() == 0 {
                None
            } else {
                Some(self.remaining(ctx).last())
            }),
    {
    }

    /// The forward and the backward cursor.
    pub closed spec fn cursors(&self) -> (Option<OpPtr>, Option<OpPtr>) {
        (self.next, self.next_back)
    }

    /// Visits the first operation not visited yet.
    pub fn next(&mut self, ctx: &Context) -> (r: Option<OpPtr>)
        requires
            ctx.wf(),
            old(self).valid_for(ctx),
        ensures
            final(self).valid_for(ctx),
            old(self).remaining(ctx).len() == 0 ==> r.is_none() && final(self).remaining(ctx).len() == 0,
            old(self).remaining(ctx).len() > 0 ==> r == Some(old(self).remaining(ctx)[0])
                && final(self).remaining(ctx) == old(self).remaining(ctx).drop_first(),
            final(self).exhausted() <==> final(self).remaining(ctx).len() == 0,
    {
        proof {
            ctx.op_links.lemma_wf_facts();
            ctx.op_links.lemma_no_duplicates(self.block.idx as int);
        }
        let ghost li = ctx.op_links.lists()[self.block.idx as int];
        match self.next {
            None => None,
            Some(curr) => {
                let nb = self.next_back.unwrap();
                if curr == nb {
                    assert(li[self.lo@] == li[self.hi@ - 1]);
                    self.next = None;
                    self.next_back = None;
                    self.lo = Ghost(self.lo@ + 1);
                } else {
                    assert(li[self.lo@] == curr.idx);
                    let l = ctx.op_links.get_links(curr.idx);
                    self.next = match l.next {
                        Some(n) => Some(OpPtr { idx: n }),
                        None => None,
                    };
                    self.lo = Ghost(self.lo@ + 1);
                }
                assert(self.remaining(ctx) =~= old(self).remaining(ctx).drop_first());
                Some(curr)
            },
        }
    }

    /// Visits the last operation not visited yet.
    pub fn next_back(&mut self, ctx: &Context) -> (r: Option<OpPtr>)
        requires
            ctx.wf(),
            old(self).valid_for(ctx),
        ensures
            final(self).valid_for(ctx),
            old(self).remaining(ctx).len() == 0 ==> r.is_none() && final(self).remaining(ctx).len() == 0,
            old(self).remaining(ctx).len() > 0 ==> r == Some(old(self).remaining(ctx).last())
                && final(self).remaining(ctx) == old(self).remaining(ctx).drop_last(),
            final(self).exhausted() <==> final(self).remaining(ctx).len() == 0,
    {
        proof {
            ctx.op_links.lemma_wf_facts();
            ctx.op_links.lemma_no_duplicates(self.block.idx as int);
        }
        let ghost li = ctx.op_links.lists()[self.block.idx as int];
        match self.next_back {
            None => None,
            Some(curr) => {
                let nf = self.next.unwrap();
                if curr == nf {
                    assert(li[self.lo@] == li[self.hi@ - 1]);
                    self.next = None;
                    self.next_back = None;
                    self.hi = Ghost(self.hi@ - 1);
                } else {
                    assert(li[self.hi@ - 1] == curr.idx);
                    let l = ctx.op_links.get_links(curr.idx);
                    self.next_back = match l.prev {
                        Some(n) => Some(OpPtr { idx: n }),
                        None => None,
                    };
                    self.hi = Ghost(self.hi@ - 1);
                }
                assert(self.remaining(ctx) =~= old(self).remaining(ctx).drop_last());
                Some(curr)
            },
        }
    }

    /// Makes one call per entry of `dirs`, `next` for `true` and `next_back`
    /// for `false`, and returns what the front calls and the back calls
    /// produced, in call order. When there are as many calls as operations
    /// left, every one of them is produced exactly once and both cursors end
    /// cleared together.
    pub fn walk(&mut self, ctx: &Context, dirs: &Vec<bool>) -> (r: (Vec<OpPtr>, Vec<OpPtr>))
        requires
            ctx.wf(),
            old(self).valid_for(ctx),
        ensures
            final(self).valid_for(ctx),
            (r.0@, r.1@, final(self).remaining(ctx)) == interleave(old(self).remaining(ctx), dirs@),
            dirs@.len() == old(self).remaining(ctx).len() ==> {
                &&& final(self).exhausted()
                &&& final(self).remaining(ctx).len() == 0
                &&& r.0@ + r.1@.reverse() == old(self).remaining(ctx)
            },
    {
        let ghost r0 = self.remaining(ctx);
        let mut front: Vec<OpPtr> = Vec::new();
        let mut back: Vec<OpPtr> = Vec::new();
        let mut i: usize = 0;
        assert(dirs@.subrange(0, 0) =~= Seq::<bool>::empty());
        while i < dirs.len()
            invariant
                ctx.wf(),
                self.valid_for(ctx),
                r0 == old(self).remaining(ctx),
                i <= dirs@.len(),
                (front@, back@, self.remaining(ctx)) == interleave(r0, dirs@.subrange(0, i as int)),
            decreases dirs@.len() - i,
        {
            let ghost d = dirs@.subrange(0, i + 1);
            assert(d.drop_last() =~= dirs@.subrange(0, i as int));
            assert(d.last() == dirs@[i as int]);
            if dirs[i] {
                match self.next(ctx) {
                    Some(o) => front.push(o),
                    None => {},
                }
            } else {
                match self.next_back(ctx) {
                    Some(o) => back.push(o),
                    None => {},
                }
            }
            i = i + 1;
        }
        assert(dirs@.subrange(0, dirs@.len() as int) =~= dirs@);
        proof {
            if dirs@.len() == r0.len() {
                lemma_iter_pairing(r0, dirs@);
            }
        }
        (front, back)
    }

    /// The last operation not visited yet; consumes the iterator.
    pub fn last(self, ctx: &Context) -> (r: Option<OpPtr>)
        requires
            ctx.wf(),
            self.valid_for(ctx),
        ensures
            self.remaining(ctx).len() == 0 ==> r.is_none(),
            self.remaining(ctx).len() > 0 ==> r == Some(self.remaining(ctx).last()),
    {
        let mut it = self;
        it.next_back(ctx)
    }
}

impl BlockArgument {
    /// The block of which this is an argument.
    pub fn get_def_block(&self) -> (r: BlockPtr)
        ensures
            r == self.def_block,
    {
        self.def_block
    }

    /// Index of this argument in the block's list of arguments.
    pub fn get_arg_idx(&self) -> (r: usize)
        ensures
            r == self.arg_idx,
    {
        self.arg_idx
    }

    /// The type of this argument.
    pub fn get_type(&self) -> (r: TypePtr)
        ensures
            r == self.ty,
    {
        self.ty
    }

    /// The display name of this argument: `registered`, the name a debug-name
    /// registry holds for it, if there is one; else the name of its block
    /// followed by its index in brackets.
    pub fn get_name(&self, ctx: &Context, registered: Option<String>) -> (r: String)
        requires
            ctx.block_valid(self.def_block),
        ensures
            registered matches Some(n) ==> r@ == n@,
            registered.is_none() ==> r@ == block_name(ctx.block(self.def_block).label, ctx.block(self.def_block).self_ptr.idx as nat) + seq!['[']
                + decimal(self.arg_idx as nat) + seq![']'],
    {
        match registered {
            Some(n) => n,
            None => {
                let mut s = ctx.deref_block(self.def_block).get_name();
                proof {
                    reveal_strlit("[");
                    reveal_strlit("]");
                }
                s.append("[");
                push_decimal(&mut s, self.arg_idx);
                s.append("]");
                s
            },
        }
    }

    /// The value identity of this argument.
    pub fn as_value(&self) -> (r: Value)
        ensures
            r == (Value::BlockArgument { block: self.def_block, arg_idx: self.arg_idx }),
    {
        Value::BlockArgument { block: self.def_block, arg_idx: self.arg_idx }
    }
}

impl PartialEq for BasicBlock {
    /// Blocks are equal when they are the same node: their handles agree.
    fn eq(&self, other: &BasicBlock) -> (r: bool) {
        self.self_ptr == other.self_ptr
    }
}

impl vstd::std_specs::cmp::PartialEqSpecImpl for BasicBlock {
    open spec fn obeys_eq_spec() -> bool {
        true
    }

    open spec fn eq_spec(&self, other: &BasicBlock) -> bool {
        self.self_ptr == other.self_ptr
    }
}

impl<'a> From<&'a BlockArgument> for Value {
    /// The value identity of a block argument.
    fn from(a: &'a BlockArgument) -> (r: Value) {
        Value::BlockArgument { block: a.def_block, arg_idx: a.arg_idx }
    }
}

impl<'a> vstd::std_specs::convert::FromSpecImpl<&'a BlockArgument> for Value {
    open spec fn obeys_from_spec() -> bool {
        true
    }

    open spec fn from_spec(a: &'a BlockArgument) -> Value {
        Value::BlockArgument { block: a.def_block, arg_idx: a.arg_idx }
    }
}

impl BasicBlock {
    pub open(crate) spec fn arg_types(&self) -> Seq<TypePtr> {
        self.args@.map_values(|a: BlockArgument| a.ty)
    }

    /// Creates a block with one argument per entry of `arg_types`; the block
    /// holds no operation and belongs to no region.
    pub fn new(ctx: &mut Context, label: Option<String>, arg_types: Vec<TypePtr>) -> (r: BlockPtr)
        requires
            old(ctx).wf(),
            old(ctx).num_blocks() < usize::MAX,
        ensures
            final(ctx).wf(),
            r.idx == old(ctx).num_blocks(),
            final(ctx).num_blocks() == old(ctx).num_blocks() + 1,
            final(ctx).num_ops() == old(ctx).num_ops(),
            final(ctx).num_regions() == old(ctx).num_regions(),
            final(ctx).block_live(r),
            final(ctx).block(r).label == label,
            final(ctx).attributes_of(r) == Map::<Seq<char>, crate::context::AttrPtr>::empty(),
            final(ctx).block(r).arg_types() == arg_types@,
            forall|i: int|
                0 <= i < arg_types@.len() ==> #[trigger] final(ctx).uses_of(
                    Value::BlockArgument { block: r, arg_idx: i as usize },
                ).len() == 0,
            final(ctx).ops_in(r) == Seq::<crate::context::OpPtr>::empty(),
            final(ctx).block_parent(r) == None::<crate::context::RegionPtr>,
            forall|v: Value| old(ctx).value_valid(v) ==> #[trigger] final(ctx).uses_of(v) == old(ctx).uses_of(v),
            final(ctx).keeps_links(old(ctx)),
            final(ctx).keeps_nodes(old(ctx)),
    {
        proof {
            ctx.op_links.lemma_wf_facts();
            ctx.block_links.lemma_wf_facts();
        }
        let r = BlockPtr { idx: ctx.blocks.len() };
        let mut args: Vec<BlockArgument> = Vec::new();
        let mut i: usize = 0;
        while i < arg_types.len()
            invariant
                i <= arg_types@.len(),
                args@.len() == i,
                forall|j: int|
                    0 <= j < i ==> {
                        &&& (#[trigger] args@[j]).def_block == r
                        &&& args@[j].arg_idx == j
                        &&& args@[j].ty == arg_types@[j]
                        &&& args@[j].uses@.len() == 0
                    },
            decreases arg_types@.len() - i,
        {
            args.push(BlockArgument { uses: Vec::new(), def_block: r, arg_idx: i, ty: arg_types[i] });
            i = i + 1;
        }
        ctx.blocks.push(BasicBlock { self_ptr: r, label, args, attributes: attrs_new(), preds: Vec::new(), live: true });
        ctx.op_links.push_container();
        ctx.block_links.push_elem();
        proof {
            ctx.op_links.lemma_wf_facts();
            ctx.block_links.lemma_wf_facts();
        }
        assert(ctx.blocks@[r.idx as int].arg_types() =~= arg_types@);
        assert(ctx.ops_in(r) =~= Seq::<crate::context::OpPtr>::empty());
        proof {
            Context::lemma_keeps_links(ctx, old(ctx));
        }
        assert forall|b: int, j: int|
            0 <= b < ctx.blocks@.len() && 0 <= j < ctx.blocks@[b].args@.len() implies #[trigger] ctx.arg_ok(b, j) by {
            if b < r.idx {
                assert(old(ctx).arg_ok(b, j));
            }
        }
        assert forall|v: Value, k: int|
            ctx.value_valid(v) && 0 <= k < ctx.uses_of(v).len() implies #[trigger] ctx.use_ok(v, k) by {
            assert(old(ctx).use_ok(v, k));
        }
        assert forall|v: Value| ctx.value_valid(v) implies (#[trigger] ctx.uses_of(v)).no_duplicates() by {
            if old(ctx).value_valid(v) {
                assert(old(ctx).uses_of(v).no_duplicates());
            }
        }
        assert forall|o: OpPtr, k: usize| ctx.op_live(o) && k < ctx.num_operands(o) implies #[trigger] ctx.slot_recorded(o, k) by {
            assert(old(ctx).slot_recorded(o, k));
        }
        r
    }

    /// The arguments of a block embed the block's handle and their own index.
    pub proof fn lemma_argument_identity(ctx: &Context, b: BlockPtr)
        requires
            ctx.wf(),
            ctx.block_valid(b),
        ensures
            forall|i: int|
                0 <= i < ctx.block(b).args@.len() ==> {
                    &&& (#[trigger] ctx.block(b).args@[i]).def_block == b
                    &&& ctx.block(b).args@[i].arg_idx == i
                },
            ctx.block(b).self_ptr == b,
    {
        assert forall|i: int| 0 <= i < ctx.block(b).args@.len() implies {
            &&& (#[trigger] ctx.block(b).args@[i]).def_block == b
            &&& ctx.block(b).args@[i].arg_idx == i
        } by {
            assert(ctx.arg_ok(b.idx as int, i));
        }
        assert(ctx.blocks@[b.idx as int].self_ptr.idx == b.idx);
    }

    /// The display name of this block: its label if it has one, else
    /// `block` followed by the index of its handle.
    pub fn get_name(&self) -> (r: String)
        ensures
            r@ == block_name(self.label, self.self_ptr.idx as nat),
    {
        match &self.label {
            Some(l) => l.clone(),
            None => {
                proof {
                    reveal_strlit("block");
                }
                let mut s = String::from_str("block");
                push_decimal(&mut s, self.self_ptr.idx);
                s
            },
        }
    }

    /// An iterator over the operations of this block, from both ends.
    pub fn iter(&self, ctx: &Context) -> (r: Iter)
        requires
            ctx.wf(),
            ctx.block_valid(self.self_ptr),
        ensures
            r.valid_for(ctx),
            r.remaining(ctx) == ctx.ops_in(self.self_ptr),
    {
        ctx.iter(self.self_ptr)
    }

    /// Verifies the operations of this block in list order with
    /// `verify_op`, the check of a single operation. The walk stops at the
    /// first operation that fails, which is returned; the operations after
    /// it are not checked.
    pub fn verify<F: Fn(OpPtr) -> bool>(&self, ctx: &Context, verify_op: F) -> (r: Result<(), OpPtr>)
        requires
            ctx.wf(),
            ctx.block_valid(self.self_ptr),
            forall|o: OpPtr| verify_op.requires((o,)),
        ensures
            r.is_ok() ==> forall|i: int|
                0 <= i < ctx.ops_in(self.self_ptr).len() ==> verify_op.ensures(
                    (#[trigger] ctx.ops_in(self.self_ptr)[i],),
                    true,
                ),
            r matches Err(o) ==> exists|i: int|
                0 <= i < ctx.ops_in(self.self_ptr).len() && ctx.ops_in(self.self_ptr)[i] == o
                    && verify_op.ensures((o,), false) && forall|j: int|
                    0 <= j < i ==> verify_op.ensures((#[trigger] ctx.ops_in(self.self_ptr)[j],), true),
    {
        let ghost s = ctx.ops_in(self.self_ptr);
        let mut it = self.iter(ctx);
        let ghost mut seen: int = 0;
        assert(s.subrange(0, s.len() as int) =~= s);
        loop
            invariant
                ctx.wf(),
                it.valid_for(ctx),
                s == ctx.ops_in(self.self_ptr),
                0 <= seen <= s.len(),
                it.remaining(ctx) == s.subrange(seen, s.len() as int),
                forall|o: OpPtr| verify_op.requires((o,)),
                forall|j: int| 0 <= j < seen ==> verify_op.ensures((#[trigger] s[j],), true),
            decreases s.len() - seen,
        {
            let ghost rest = s.subrange(seen, s.len() as int);
            match it.next(ctx) {
                None => {
                    assert(seen == s.len());
                    return Ok(());
                },
                Some(o) => {
                    assert(o == s[seen]);
                    let ok = verify_op(o);
                    if !ok {
                        return Err(o);
                    }
                    proof {
                        assert(rest.drop_first() =~= s.subrange(seen + 1, s.len() as int));
                        seen = seen + 1;
                    }
                },
            }
        }
    }

    /// The `idx`th argument as a value, or `None` when out of range.
    pub fn get_argument(&self, arg_idx: usize) -> (r: Option<Value>)
        ensures
            arg_idx < self.args@.len() ==> r == Some(
                Value::BlockArgument {
                    block: self.args@[arg_idx as int].def_block,
                    arg_idx: self.args@[arg_idx as int].arg_idx,
                },
            ),
            arg_idx >= self.args@.len() ==> r.is_none(),
    {
        if arg_idx < self.args.len() {
            Some(self.args[arg_idx].as_value())
        } else {
            None
        }
    }

    /// A reference to the `idx`th argument, or `None` when out of range.
    pub fn get_argument_ref(&self, arg_idx: usize) -> (r: Option<&BlockArgument>)
        ensures
            arg_idx < self.args@.len() ==> r == Some(&self.args@[arg_idx as int]),
            arg_idx >= self.args@.len() ==> r.is_none(),
    {
        if arg_idx < self.args.len() {
            Some(&self.args[arg_idx])
        } else {
            None
        }
    }

    /// The number of arguments.
    pub fn get_num_arguments(&self) -> (r: usize)
        ensures
            r == self.args@.len(),
    {
        self.args.len()
    }

    /// The handle of this block.
    pub fn get_self_ptr(&self) -> (r: BlockPtr)
        ensures
            r == self.self_ptr,
    {
        self.self_ptr
    }
}

impl Context {
    /// In every block, each operation names the block as its parent, its
    /// `prev` and `next` links are its neighbours in the list (`None` at the
    /// ends), so that following `next` from the head and `prev` from the
    /// tail visit the list in opposite orders; an operation in no block has
    /// no links.
    pub proof fn lemma_op_list_integrity(&self, b: BlockPtr)
        requires
            self.wf(),
            self.block_valid(b),
        ensures
            forall|i: int|
                0 <= i < self.ops_in(b).len() ==> {
                    let s = self.ops_in(b);
                    &&& self.op_parent(#[trigger] self.ops_in(b)[i]) == Some(b)
                    &&& self.op_position(s[i]) == i
                    &&& self.prev_op(s[i]) == (if i == 0 { None } else { Some(s[i - 1]) })
                    &&& self.next_op(s[i]) == (if i + 1 == s.len() { None } else { Some(s[i + 1]) })
                },
            forall|o: OpPtr|
                self.op_valid(o) && (#[trigger] self.op_parent(o)).is_none() ==> self.prev_op(o).is_none()
                    && self.next_op(o).is_none(),
    {
        self.op_links.lemma_wf_facts();
        assert forall|i: int| 0 <= i < self.ops_in(b).len() implies {
            let s = self.ops_in(b);
            &&& self.op_parent(#[trigger] self.ops_in(b)[i]) == Some(b)
            &&& self.op_position(s[i]) == i
            &&& self.prev_op(s[i]) == (if i == 0 { None } else { Some(s[i - 1]) })
            &&& self.next_op(s[i]) == (if i + 1 == s.len() { None } else { Some(s[i + 1]) })
        } by {
            let l = self.op_links.lists()[b.idx as int];
            assert(l[i] == self.op_links.lists()[b.idx as int][i]);
        }
        assert forall|o: OpPtr|
            self.op_valid(o) && (#[trigger] self.op_parent(o)).is_none() implies self.prev_op(o).is_none()
                && self.next_op(o).is_none() by {
            assert(self.op_links.links(o.idx as int).container.is_none());
        }
    }

    /// An iterator over the operations of block `b`, from both ends.
    pub fn iter(&self, b: BlockPtr) -> (r: Iter)
        requires
            self.wf(),
            self.block_valid(b),
        ensures
            r.valid_for(self),
            r.remaining(self) == self.ops_in(b),
    {
        proof {
            self.op_links.lemma_wf_facts();
        }
        let ends = self.op_links.head(b.idx);
        let t = self.op_links.tail(b.idx);
        let r = Iter {
            next: match ends {
                Some(h) => Some(OpPtr { idx: h }),
                None => None,
            },
            next_back: match t {
                Some(x) => Some(OpPtr { idx: x }),
                None => None,
            },
            block: b,
            lo: Ghost(0),
            hi: Ghost(self.ops_in(b).len() as int),
        };
        assert(r.remaining(self) =~= self.ops_in(b));
        r
    }

    /// The first and last operations of block `b`.
    pub fn ops_list(&self, b: BlockPtr) -> (r: OpsInBlock)
        requires
            self.wf(),
            self.block_valid(b),
        ensures
            r.first == (if self.ops_in(b).len() == 0 { None } else { Some(self.ops_in(b)[0]) }),
            r.last == (if self.ops_in(b).len() == 0 { None } else { Some(self.ops_in(b).last()) }),
    {
        proof {
            self.op_links.lemma_wf_facts();
        }
        let h = self.op_links.head(b.idx);
        let t = self.op_links.tail(b.idx);
        OpsInBlock {
            first: match h {
                Some(x) => Some(OpPtr { idx: x }),
                None => None,
            },
            last: match t {
                Some(x) => Some(OpPtr { idx: x }),
                None => None,
            },
        }
    }

    /// The region of block `b` and its neighbours there.
    pub fn region_links(&self, b: BlockPtr) -> (r: RegionLinks)
        requires
            self.wf(),
            self.block_valid(b),
        ensures
            r.parent_region == self.block_parent(b),
            r.parent_region.is_none() ==> r.prev_block.is_none() && r.next_block.is_none(),
            r.parent_region matches Some(rg) ==> {
                let s = self.blocks_in(rg);
                let p = self.block_position(b);
                &&& 0 <= p < s.len()
                &&& s[p] == b
                &&& r.prev_block == (if p == 0 { None } else { Some(s[p - 1]) })
                &&& r.next_block == (if p + 1 == s.len() { None } else { Some(s[p + 1]) })
            },
    {
        proof {
            self.block_links.lemma_wf_facts();
        }
        let l = self.block_links.get_links(b.idx);
        RegionLinks {
            parent_region: match l.container {
                Some(x) => Some(RegionPtr { idx: x }),
                None => None,
            },
            next_block: match l.next {
                Some(x) => Some(BlockPtr { idx: x }),
                None => None,
            },
            prev_block: match l.prev {
                Some(x) => Some(BlockPtr { idx: x }),
                None => None,
            },
        }
    }

    /// Links the unlinked operation `o` at the back of block `b`.
    pub fn insert_op_at_back(&mut self, b: BlockPtr, o: OpPtr)
        requires
            old(self).wf(),
            old(self).block_valid(b),
            old(self).op_valid(o),
            old(self).op_parent(o).is_none(),
        ensures
            final(self).wf(),
            final(self).relinked_ops(old(self), b, old(self).ops_in(b).push(o)),
            final(self).op_parent(o) == Some(b),
    {
        proof {
            self.op_links.lemma_wf_facts();
        }
        let ghost s = self.op_links.lists()[b.idx as int];
        self.op_links.insert_at_back(b.idx, o.idx);
        proof {
            Context::lemma_links_only_wf(self, old(self));
            Context::lemma_ops_relinked(self, old(self), b, s.push(o.idx));
            assert(s.push(o.idx).map_values(|x: usize| OpPtr { idx: x }) =~= old(self).ops_in(b).push(o));
            self.op_links.lemma_wf_facts();
            assert(self.op_links.lists()[b.idx as int][s.len() as int] == o.idx);
        }
    }

    /// Links the unlinked operation `o` at the front of block `b`.
    pub fn insert_op_at_front(&mut self, b: BlockPtr, o: OpPtr)
        requires
            old(self).wf(),
            old(self).block_valid(b),
            old(self).op_valid(o),
            old(self).op_parent(o).is_none(),
        ensures
            final(self).wf(),
            final(self).relinked_ops(old(self), b, old(self).ops_in(b).insert(0, o)),
            final(self).op_parent(o) == Some(b),
    {
        proof {
            self.op_links.lemma_wf_facts();
        }
        let ghost s = self.op_links.lists()[b.idx as int];
        self.op_links.insert_at_front(b.idx, o.idx);
        proof {
            Context::lemma_links_only_wf(self, old(self));
            Context::lemma_ops_relinked(self, old(self), b, s.insert(0, o.idx));
            assert(s.insert(0, o.idx).map_values(|x: usize| OpPtr { idx: x }) =~= old(self).ops_in(b).insert(0, o));
            self.op_links.lemma_wf_facts();
            assert(self.op_links.lists()[b.idx as int][0] == o.idx);
        }
    }

    /// Links the unlinked operation `o` right after the linked operation `at`.
    pub fn insert_op_after(&mut self, o: OpPtr, at: OpPtr)
        requires
            old(self).wf(),
            old(self).op_valid(o),
            old(self).op_valid(at),
            old(self).op_parent(o).is_none(),
            old(self).op_parent(at).is_some(),
        ensures
            final(self).wf(),
            ({
                let b = old(self).op_parent(at).unwrap();
                &&& final(self).relinked_ops(
                    old(self),
                    b,
                    old(self).ops_in(b).insert(old(self).op_position(at) + 1, o),
                )
                &&& final(self).op_parent(o) == Some(b)
            }),
    {
        proof {
            self.op_links.lemma_wf_facts();
        }
        let ghost c = self.op_links.links(at.idx as int).container.unwrap();
        let ghost p = self.op_links.position(at.idx as int);
        let ghost s = self.op_links.lists()[c as int];
        self.op_links.insert_after(o.idx, at.idx);
        proof {
            Context::lemma_links_only_wf(self, old(self));
            Context::lemma_ops_relinked(self, old(self), BlockPtr { idx: c }, s.insert(p + 1, o.idx));
            assert(s.insert(p + 1, o.idx).map_values(|x: usize| OpPtr { idx: x }) =~= old(self).ops_in(BlockPtr { idx: c }).insert(p + 1, o));
            self.op_links.lemma_wf_facts();
            assert(self.op_links.lists()[c as int][p + 1] == o.idx);
        }
    }

    /// Links the unlinked operation `o` right before the linked operation `at`.
    pub fn insert_op_before(&mut self, o: OpPtr, at: OpPtr)
        requires
            old(self).wf(),
            old(self).op_valid(o),
            old(self).op_valid(at),
            old(self).op_parent(o).is_none(),
            old(self).op_parent(at).is_some(),
        ensures
            final(self).wf(),
            ({
                let b = old(self).op_parent(at).unwrap();
                &&& final(self).relinked_ops(
                    old(self),
                    b,
                    old(self).ops_in(b).insert(old(self).op_position(at), o),
                )
                &&& final(self).op_parent(o) == Some(b)
            }),
    {
        proof {
            self.op_links.lemma_wf_facts();
        }
        let ghost c = self.op_links.links(at.idx as int).container.unwrap();
        let ghost p = self.op_links.position(at.idx as int);
        let ghost s = self.op_links.lists()[c as int];
        self.op_links.insert_before(o.idx, at.idx);
        proof {
            Context::lemma_links_only_wf(self, old(self));
            Context::lemma_ops_relinked(self, old(self), BlockPtr { idx: c }, s.insert(p, o.idx));
            assert(s.insert(p, o.idx).map_values(|x: usize| OpPtr { idx: x }) =~= old(self).ops_in(BlockPtr { idx: c }).insert(p, o));
            self.op_links.lemma_wf_facts();
            assert(self.op_links.lists()[c as int][p] == o.idx);
        }
    }

    /// Unlinks the linked operation `o` from its block; `o` is not deallocated.
    pub fn remove_op(&mut self, o: OpPtr)
        requires
            old(self).wf(),
            old(self).op_valid(o),
            old(self).op_parent(o).is_some(),
        ensures
            final(self).wf(),
            ({
                let b = old(self).op_parent(o).unwrap();
                final(self).relinked_ops(old(self), b, old(self).ops_in(b).remove(old(self).op_position(o)))
            }),
            final(self).op_parent(o).is_none(),
    {
        proof {
            self.op_links.lemma_wf_facts();
        }
        let ghost c = self.op_links.links(o.idx as int).container.unwrap();
        let ghost p = self.op_links.position(o.idx as int);
        let ghost s = self.op_links.lists()[c as int];
        self.op_links.remove(o.idx);
        proof {
            Context::lemma_links_only_wf(self, old(self));
            Context::lemma_ops_relinked(self, old(self), BlockPtr { idx: c }, s.remove(p));
            assert(s.remove(p).map_values(|x: usize| OpPtr { idx: x }) =~= old(self).ops_in(BlockPtr { idx: c }).remove(p));
        }
    }

    /// The operation lists seen through handles follow the lists of indices.
    proof fn lemma_ops_relinked(new: &Context, old: &Context, b: BlockPtr, s: Seq<usize>)
        requires
            old.wf(),
            new.ops == old.ops,
            new.blocks == old.blocks,
            new.regions == old.regions,
            new.block_links == old.block_links,
            b.idx < old.blocks@.len(),
            new.op_links.wf(),
            new.op_links.lists() == old.op_links.lists().update(b.idx as int, s),
        ensures
            new.relinked_ops(old, b, s.map_values(|x: usize| OpPtr { idx: x })),
    {
        old.op_links.lemma_wf_facts();
        new.op_links.lemma_wf_facts();
        let sm = s.map_values(|x: usize| OpPtr { idx: x });
        assert forall|i: int| 0 <= i < sm.len() implies new.op_parent(#[trigger] sm[i]) == Some(b) && new.op_position(sm[i]) == i by {
            assert(new.op_links.lists()[b.idx as int][i] == s[i]);
        }
        assert forall|b2: BlockPtr| #[trigger] new.block_valid(b2) implies new.ops_in(b2) == if b2 == b {
            s.map_values(|x: usize| OpPtr { idx: x })
        } else {
            old.ops_in(b2)
        } by {
            if b2 != b {
                assert(b2.idx != b.idx);
            }
        }
    }
}

} // verus!
