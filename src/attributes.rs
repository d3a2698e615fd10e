//! Attribute dictionaries of blocks: attribute names to attribute handles.
use vstd::prelude::*;

use rustc_hash::FxHashMap;

use crate::context::{AttrPtr, BlockPtr, Context, OpPtr};

verus! {

/// A dictionary from attribute names to attribute handles, kept in an
/// `FxHashMap`. Names are unique.
#[verifier::external_body]
pub struct Attributes {
    map: FxHashMap<String, AttrPtr>,
}

/// What an attribute dictionary holds.
pub uninterp spec fn attr_entries(a: Attributes) -> Map<Seq<char>, AttrPtr>;

/// Relies on `FxHashMap::default` (std's `HashMap` with rustc_hash's
/// `FxHasher`): a new map is empty.
#[verifier::external_body]
pub(crate) fn attrs_new() -> (r: Attributes)
    ensures
        attr_entries(r).dom() == Set::<Seq<char>>::empty(),
{
    Attributes { map: FxHashMap::default() }
}

/// Relies on `HashMap::insert` of an `FxHashMap`: the key now maps to the
/// value, and the value it mapped to before is returned.
#[verifier::external_body]
pub(crate) fn attrs_insert(a: &mut Attributes, k: String, v: AttrPtr) -> (r: Option<AttrPtr>)
    ensures
        attr_entries(*final(a)) == attr_entries(*old(a)).insert(k@, v),
        r == (if attr_entries(*old(a)).dom().contains(k@) {
            Some(attr_entries(*old(a))[k@])
        } else {
            None
        }),
{
    a.map.insert(k, v)
}

/// Relies on `HashMap::get` of an `FxHashMap`: the value of the key, if any.
#[verifier::external_body]
pub(crate) fn attrs_get(a: &Attributes, k: &str) -> (r: Option<AttrPtr>)
    ensures
        r == (if attr_entries(*a).dom().contains(k@) {
            Some(attr_entries(*a)[k@])
        } else {
            None
        }),
{
    a.map.get(k).copied()
}

/// Relies on `HashMap::remove` of an `FxHashMap`: the key no longer maps to
/// anything, and the value it mapped to is returned.
#[verifier::external_body]
pub(crate) fn attrs_remove(a: &mut Attributes, k: &str) -> (r: Option<AttrPtr>)
    ensures
        attr_entries(*final(a)) == attr_entries(*old(a)).remove(k@),
        r == (if attr_entries(*old(a)).dom().contains(k@) {
            Some(attr_entries(*old(a))[k@])
        } else {
            None
        }),
{
    a.map.remove(k)
}

impl Context {
    /// The attributes of block `b`.
    pub open(crate) spec fn attributes_of(&self, b: BlockPtr) -> Map<Seq<char>, AttrPtr> {
        attr_entries(self.blocks@[b.idx as int].attributes)
    }

    /// Sets attribute `name` of block `b` to `v`; returns its previous value.
    pub fn set_attribute(&mut self, b: BlockPtr, name: String, v: AttrPtr) -> (r: Option<AttrPtr>)
        requires
            old(self).wf(),
            old(self).block_valid(b),
        ensures
            final(self).wf(),
            final(self).attributes_of(b) == old(self).attributes_of(b).insert(name@, v),
            r == (if old(self).attributes_of(b).dom().contains(name@) {
                Some(old(self).attributes_of(b)[name@])
            } else {
                None
            }),
            forall|c: BlockPtr| c != b && old(self).block_valid(c) ==> #[trigger] final(self).attributes_of(c) == old(self).attributes_of(c),
            final(self).same_but_liveness(old(self)),
            final(self).same_ops(old(self)),
    {
        let r = attrs_insert(&mut self.blocks[b.idx].attributes, name, v);
        proof {
            assert forall|p: OpPtr| #[trigger] self.op_live(p) implies old(self).op_live(p) by {}
            Context::lemma_liveness_wf(self, old(self));
        }
        r
    }

    /// Removes attribute `name` of block `b`; returns its value.
    pub fn remove_attribute(&mut self, b: BlockPtr, name: &str) -> (r: Option<AttrPtr>)
        requires
            old(self).wf(),
            old(self).block_valid(b),
        ensures
            final(self).wf(),
            final(self).attributes_of(b) == old(self).attributes_of(b).remove(name@),
            r == (if old(self).attributes_of(b).dom().contains(name@) {
                Some(old(self).attributes_of(b)[name@])
            } else {
                None
            }),
            forall|c: BlockPtr| c != b && old(self).block_valid(c) ==> #[trigger] final(self).attributes_of(c) == old(self).attributes_of(c),
            final(self).same_but_liveness(old(self)),
            final(self).same_ops(old(self)),
    {
        let r = attrs_remove(&mut self.blocks[b.idx].attributes, name);
        proof {
            assert forall|p: OpPtr| #[trigger] self.op_live(p) implies old(self).op_live(p) by {}
            Context::lemma_liveness_wf(self, old(self));
        }
        r
    }

    /// The value of attribute `name` of block `b`, if it is set.
    pub fn get_attribute(&self, b: BlockPtr, name: &str) -> (r: Option<AttrPtr>)
        requires
            self.block_valid(b),
        ensures
            r == (if self.attributes_of(b).dom().contains(name@) {
                Some(self.attributes_of(b)[name@])
            } else {
                None
            }),
    {
        attrs_get(&self.blocks[b.idx].attributes, name)
    }
}

} // verus!
