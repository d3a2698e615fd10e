//! Regions: containers of blocks.
use vstd::prelude::*;

use crate::context::{BlockPtr, Context, RegionPtr};

verus! {

impl Context {
    /// The first and last blocks of region `r`.
    pub fn region_ends(&self, r: RegionPtr) -> (e: (Option<BlockPtr>, Option<BlockPtr>))
        requires
            self.wf(),
            self.region_valid(r),
        ensures
            e.0 == (if self.blocks_in(r).len() == 0 { None } else { Some(self.blocks_in(r)[0]) }),
            e.1 == (if self.blocks_in(r).len() == 0 { None } else { Some(self.blocks_in(r).last()) }),
    {
        proof {
            self.block_links.lemma_wf_facts();
        }
        let h = self.block_links.head(r.idx);
        let t = self.block_links.tail(r.idx);
        (
            match h {
                Some(x) => Some(BlockPtr { idx: x }),
                None => None,
            },
            match t {
                Some(x) => Some(BlockPtr { idx: x }),
                None => None,
            },
        )
    }

    /// Links the unlinked block `b` at the back of region `r`.
    pub fn insert_block_at_back(&mut self, r: RegionPtr, b: BlockPtr)
        requires
            old(self).wf(),
            old(self).region_valid(r),
            old(self).block_valid(b),
            old(self).block_parent(b).is_none(),
        ensures
            final(self).wf(),
            final(self).relinked_blocks(old(self), r, old(self).blocks_in(r).push(b)),
            final(self).block_parent(b) == Some(r),
    {
        proof {
            self.block_links.lemma_wf_facts();
        }
        let ghost s = self.block_links.lists()[r.idx as int];
        self.block_links.insert_at_back(r.idx, b.idx);
        proof {
            Context::lemma_links_only_wf(self, old(self));
            Context::lemma_blocks_relinked(self, old(self), r, s.push(b.idx));
            assert(s.push(b.idx).map_values(|x: usize| BlockPtr { idx: x }) =~= old(self).blocks_in(r).push(b));
            self.block_links.lemma_wf_facts();
            assert(self.block_links.lists()[r.idx as int][s.len() as int] == b.idx);
        }
    }

    /// Links the unlinked block `b` at the front of region `r`.
    pub fn insert_block_at_front(&mut self, r: RegionPtr, b: BlockPtr)
        requires
            old(self).wf(),
            old(self).region_valid(r),
            old(self).block_valid(b),
            old(self).block_parent(b).is_none(),
        ensures
            final(self).wf(),
            final(self).relinked_blocks(old(self), r, old(self).blocks_in(r).insert(0, b)),
            final(self).block_parent(b) == Some(r),
    {
        proof {
            self.block_links.lemma_wf_facts();
        }
        let ghost s = self.block_links.lists()[r.idx as int];
        self.block_links.insert_at_front(r.idx, b.idx);
        proof {
            Context::lemma_links_only_wf(self, old(self));
            Context::lemma_blocks_relinked(self, old(self), r, s.insert(0, b.idx));
            assert(s.insert(0, b.idx).map_values(|x: usize| BlockPtr { idx: x }) =~= old(self).blocks_in(r).insert(0, b));
            self.block_links.lemma_wf_facts();
            assert(self.block_links.lists()[r.idx as int][0] == b.idx);
        }
    }

    /// Links the unlinked block `b` right after the linked block `at`.
    pub fn insert_block_after(&mut self, b: BlockPtr, at: BlockPtr)
        requires
            old(self).wf(),
            old(self).block_valid(b),
            old(self).block_valid(at),
            old(self).block_parent(b).is_none(),
            old(self).block_parent(at).is_some(),
        ensures
            final(self).wf(),
            ({
                let r = old(self).block_parent(at).unwrap();
                &&& final(self).relinked_blocks(
                    old(self),
                    r,
                    old(self).blocks_in(r).insert(old(self).block_position(at) + 1, b),
                )
                &&& final(self).block_parent(b) == Some(r)
            }),
    {
        proof {
            self.block_links.lemma_wf_facts();
        }
        let ghost c = self.block_links.links(at.idx as int).container.unwrap();
        let ghost p = self.block_links.position(at.idx as int);
        let ghost s = self.block_links.lists()[c as int];
        self.block_links.insert_after(b.idx, at.idx);
        proof {
            Context::lemma_links_only_wf(self, old(self));
            Context::lemma_blocks_relinked(self, old(self), RegionPtr { idx: c }, s.insert(p + 1, b.idx));
            assert(s.insert(p + 1, b.idx).map_values(|x: usize| BlockPtr { idx: x }) =~= old(self).blocks_in(RegionPtr { idx: c }).insert(p + 1, b));
            self.block_links.lemma_wf_facts();
            assert(self.block_links.lists()[c as int][p + 1] == b.idx);
        }
    }

    /// Links the unlinked block `b` right before the linked block `at`.
    pub fn insert_block_before(&mut self, b: BlockPtr, at: BlockPtr)
        requires
            old(self).wf(),
            old(self).block_valid(b),
            old(self).block_valid(at),
            old(self).block_parent(b).is_none(),
            old(self).block_parent(at).is_some(),
        ensures
            final(self).wf(),
            ({
                let r = old(self).block_parent(at).unwrap();
                &&& final(self).relinked_blocks(
                    old(self),
                    r,
                    old(self).blocks_in(r).insert(old(self).block_position(at), b),
                )
                &&& final(self).block_parent(b) == Some(r)
            }),
    {
        proof {
            self.block_links.lemma_wf_facts();
        }
        let ghost c = self.block_links.links(at.idx as int).container.unwrap();
        let ghost p = self.block_links.position(at.idx as int);
        let ghost s = self.block_links.lists()[c as int];
        self.block_links.insert_before(b.idx, at.idx);
        proof {
            Context::lemma_links_only_wf(self, old(self));
            Context::lemma_blocks_relinked(self, old(self), RegionPtr { idx: c }, s.insert(p, b.idx));
            assert(s.insert(p, b.idx).map_values(|x: usize| BlockPtr { idx: x }) =~= old(self).blocks_in(RegionPtr { idx: c }).insert(p, b));
            self.block_links.lemma_wf_facts();
            assert(self.block_links.lists()[c as int][p] == b.idx);
        }
    }

    /// Unlinks the linked block `b` from its region; `b` is not deallocated.
    pub fn remove_block(&mut self, b: BlockPtr)
        requires
            old(self).wf(),
            old(self).block_valid(b),
            old(self).block_parent(b).is_some(),
        ensures
            final(self).wf(),
            ({
                let r = old(self).block_parent(b).unwrap();
                final(self).relinked_blocks(old(self), r, old(self).blocks_in(r).remove(old(self).block_position(b)))
            }),
            final(self).block_parent(b).is_none(),
    {
        proof {
            self.block_links.lemma_wf_facts();
        }
        let ghost c = self.block_links.links(b.idx as int).container.unwrap();
        let ghost p = self.block_links.position(b.idx as int);
        let ghost s = self.block_links.lists()[c as int];
        self.block_links.remove(b.idx);
        proof {
            Context::lemma_links_only_wf(self, old(self));
            Context::lemma_blocks_relinked(self, old(self), RegionPtr { idx: c }, s.remove(p));
            assert(s.remove(p).map_values(|x: usize| BlockPtr { idx: x }) =~= old(self).blocks_in(RegionPtr { idx: c }).remove(p));
        }
    }

    /// The block lists seen through handles follow the lists of indices.
    proof fn lemma_blocks_relinked(new: &Context, old: &Context, r: RegionPtr, s: Seq<usize>)
        requires
            old.wf(),
            new.ops == old.ops,
            new.blocks == old.blocks,
            new.regions == old.regions,
            new.op_links == old.op_links,
            r.idx < old.regions@.len(),
            new.block_links.wf(),
            new.block_links.lists() == old.block_links.lists().update(r.idx as int, s),
        ensures
            new.relinked_blocks(old, r, s.map_values(|x: usize| BlockPtr { idx: x })),
    {
        old.block_links.lemma_wf_facts();
        new.block_links.lemma_wf_facts();
        let sm = s.map_values(|x: usize| BlockPtr { idx: x });
        assert forall|i: int| 0 <= i < sm.len() implies new.block_parent(#[trigger] sm[i]) == Some(r) && new.block_position(sm[i]) == i by {
            assert(new.block_links.lists()[r.idx as int][i] == s[i]);
        }
        assert forall|r2: RegionPtr| #[trigger] new.region_valid(r2) implies new.blocks_in(r2) == if r2 == r {
            s.map_values(|x: usize| BlockPtr { idx: x })
        } else {
            old.blocks_in(r2)
        } by {
            if r2 != r {
                assert(r2.idx != r.idx);
            }
        }
    }
}


} // verus!
