//! Intrusive doubly-linked lists over arena indices.
//!
//! Elements and containers are both addressed by their arena index. Each
//! element carries `prev`, `next` and `container` links, each container
//! carries `head` and `tail` links. The ghost field `lists` records, for every
//! container, the sequence of its elements from head to tail; `pos` records
//! the position of every linked element in its container's sequence.
use vstd::prelude::*;

verus! {

/// Link fields of a list element.
#[derive(Clone, Copy, Debug, PartialEq, Eq, Structural)]
pub struct ElemLinks {
    pub prev: Option<usize>,
    pub next: Option<usize>,
    pub container: Option<usize>,
}

impl ElemLinks {
    pub open spec fn is_unlinked(self) -> bool {
        self.prev.is_none() && self.next.is_none() && self.container.is_none()
    }
}

/// Link fields of a list container.
#[derive(Clone, Copy, Debug, PartialEq, Eq, Structural)]
pub struct ContainerEnds {
    pub head: Option<usize>,
    pub tail: Option<usize>,
}

/// The expected `prev` link of the element at position `i` of `s`.
pub open spec fn prev_in(s: Seq<usize>, i: int) -> Option<usize> {
    if i == 0 {
        None
    } else {
        Some(s[i - 1])
    }
}

/// The expected `next` link of the element at position `i` of `s`.
pub open spec fn next_in(s: Seq<usize>, i: int) -> Option<usize> {
    if i + 1 == s.len() {
        None
    } else {
        Some(s[i + 1])
    }
}

pub open spec fn first_of(s: Seq<usize>) -> Option<usize> {
    if s.len() == 0 {
        None
    } else {
        Some(s[0])
    }
}

pub open spec fn last_of(s: Seq<usize>) -> Option<usize> {
    if s.len() == 0 {
        None
    } else {
        Some(s.last())
    }
}

/// The elements met by following `next` links from `start`, at most `n` of them.
pub open spec fn walk_next(t: &LinkTable, start: Option<usize>, n: nat) -> Seq<usize>
    decreases n,
{
    if n == 0 {
        Seq::empty()
    } else {
        match start {
            None => Seq::empty(),
            Some(e) => seq![e] + walk_next(t, t.links(e as int).next, (n - 1) as nat),
        }
    }
}

/// The elements met by following `prev` links from `start`, at most `n` of them.
pub open spec fn walk_prev(t: &LinkTable, start: Option<usize>, n: nat) -> Seq<usize>
    decreases n,
{
    if n == 0 {
        Seq::empty()
    } else {
        match start {
            None => Seq::empty(),
            Some(e) => seq![e] + walk_prev(t, t.links(e as int).prev, (n - 1) as nat),
        }
    }
}

/// The link fields of a family of lists: one entry per element and one per container.
pub struct LinkTable {
    elems: Vec<ElemLinks>,
    conts: Vec<ContainerEnds>,
    lists: Ghost<Seq<Seq<usize>>>,
    pos: Ghost<Seq<int>>,
}

impl LinkTable {
    /// The elements of each container, from head to tail.
    pub closed spec fn lists(&self) -> Seq<Seq<usize>> {
        self.lists@
    }

    pub closed spec fn num_elems(&self) -> nat {
        self.elems@.len()
    }

    pub closed spec fn num_containers(&self) -> nat {
        self.conts@.len()
    }

    /// The link fields stored for element `e`.
    pub closed spec fn links(&self, e: int) -> ElemLinks {
        self.elems@[e]
    }

    /// The head and tail stored for container `c`.
    pub closed spec fn ends(&self, c: int) -> ContainerEnds {
        self.conts@[c]
    }

    pub closed spec fn position(&self, e: int) -> int {
        self.pos@[e]
    }

    spec fn slot_ok(&self, c: int, i: int) -> bool {
        let s = self.lists@[c];
        let e = s[i];
        &&& 0 <= e < self.elems@.len()
        &&& self.pos@[e as int] == i
        &&& self.elems@[e as int].container == Some(c as usize)
        &&& self.elems@[e as int].prev == prev_in(s, i)
        &&& self.elems@[e as int].next == next_in(s, i)
    }

    spec fn elem_ok(&self, e: int) -> bool {
        match self.elems@[e].container {
            None => self.elems@[e].is_unlinked(),
            Some(c) => {
                &&& c < self.conts@.len()
                &&& 0 <= self.pos@[e] < self.lists@[c as int].len()
                &&& self.lists@[c as int][self.pos@[e]] == e
            },
        }
    }

    spec fn ends_ok(&self, c: int) -> bool {
        &&& self.conts@[c].head == first_of(self.lists@[c])
        &&& self.conts@[c].tail == last_of(self.lists@[c])
    }

    /// Well-formedness: the links agree with the recorded lists.
    pub closed spec fn wf(&self) -> bool {
        &&& self.lists@.len() == self.conts@.len()
        &&& self.pos@.len() == self.elems@.len()
        &&& self.conts@.len() <= usize::MAX
        &&& self.elems@.len() <= usize::MAX
        &&& forall|c: int| 0 <= c < self.conts@.len() ==> #[trigger] self.ends_ok(c)
        &&& forall|c: int, i: int|
            0 <= c < self.conts@.len() && 0 <= i < self.lists@[c].len() ==> #[trigger] self.slot_ok(
                c,
                i,
            )
        &&& forall|e: int| 0 <= e < self.elems@.len() ==> #[trigger] self.elem_ok(e)
    }

    /// Facts that follow from well-formedness, stated over the public views.
    pub proof fn lemma_wf_facts(&self)
        requires
            self.wf(),
        ensures
            self.lists().len() == self.num_containers(),
            forall|c: int, i: int|
                0 <= c < self.num_containers() && 0 <= i < self.lists()[c].len() ==> {
                    let s = self.lists()[c];
                    let e = (#[trigger] self.lists()[c][i]) as int;
                    &&& 0 <= e < self.num_elems()
                    &&& self.position(e) == i
                    &&& self.links(e).container == Some(c as usize)
                    &&& self.links(e).prev == prev_in(s, i)
                    &&& self.links(e).next == next_in(s, i)
                },
            forall|c: int|
                0 <= c < self.num_containers() ==> {
                    &&& (#[trigger] self.ends(c)).head == first_of(self.lists()[c])
                    &&& self.ends(c).tail == last_of(self.lists()[c])
                },
            forall|e: int|
                0 <= e < self.num_elems() ==> match (#[trigger] self.links(e)).container {
                    None => self.links(e).is_unlinked(),
                    Some(c) => {
                        &&& c < self.num_containers()
                        &&& 0 <= self.position(e) < self.lists()[c as int].len()
                        &&& self.lists()[c as int][self.position(e)] == e
                    },
                },
    {
        assert forall|c: int, i: int|
            0 <= c < self.num_containers() && 0 <= i < self.lists()[c].len() implies {
            let s = self.lists()[c];
            let e = (#[trigger] self.lists()[c][i]) as int;
            &&& 0 <= e < self.num_elems()
            &&& self.position(e) == i
            &&& self.links(e).container == Some(c as usize)
            &&& self.links(e).prev == prev_in(s, i)
            &&& self.links(e).next == next_in(s, i)
        } by {
            assert(self.slot_ok(c, i));
        }
        assert forall|c: int| 0 <= c < self.num_containers() implies {
            &&& (#[trigger] self.ends(c)).head == first_of(self.lists()[c])
            &&& self.ends(c).tail == last_of(self.lists()[c])
        } by {
            assert(self.ends_ok(c));
        }
        assert forall|e: int| 0 <= e < self.num_elems() implies match (#[trigger] self.links(
            e,
        )).container {
            None => self.links(e).is_unlinked(),
            Some(c) => {
                &&& c < self.num_containers()
                &&& 0 <= self.position(e) < self.lists()[c as int].len()
                &&& self.lists()[c as int][self.position(e)] == e
            },
        } by {
            assert(self.elem_ok(e));
        }
    }

    /// An empty table.
    pub fn new() -> (r: LinkTable)
        ensures
            r.wf(),
            r.num_elems() == 0,
            r.num_containers() == 0,
    {
        LinkTable { elems: Vec::new(), conts: Vec::new(), lists: Ghost(Seq::empty()), pos: Ghost(Seq::empty()) }
    }

    /// Adds an unlinked element; returns its index.
    pub fn push_elem(&mut self) -> (r: usize)
        requires
            old(self).wf(),
            old(self).num_elems() < usize::MAX,
        ensures
            final(self).wf(),
            r == old(self).num_elems(),
            final(self).num_elems() == old(self).num_elems() + 1,
            final(self).num_containers() == old(self).num_containers(),
            final(self).lists() == old(self).lists(),
            final(self).links(r as int).is_unlinked(),
            forall|e: int| 0 <= e < old(self).num_elems() ==> final(self).links(e) == old(self).links(e),
            forall|c: int| 0 <= c < old(self).num_containers() ==> final(self).ends(c) == old(self).ends(c),
            forall|e: int| 0 <= e < old(self).num_elems() ==> final(self).position(e) == old(self).position(e),
    {
        let r = self.elems.len();
        self.elems.push(ElemLinks { prev: None, next: None, container: None });
        self.pos = Ghost(self.pos@.push(0));
        assert forall|c: int, i: int|
            0 <= c < self.conts@.len() && 0 <= i < self.lists@[c].len() implies #[trigger] self.slot_ok(c, i) by {
            assert(old(self).slot_ok(c, i));
        }
        assert forall|e: int| 0 <= e < self.elems@.len() implies #[trigger] self.elem_ok(e) by {
            if e < r {
                assert(old(self).elem_ok(e));
            }
        }
        assert forall|c: int| 0 <= c < self.conts@.len() implies #[trigger] self.ends_ok(c) by {
            assert(old(self).ends_ok(c));
        }
        r
    }

    /// Adds an empty container; returns its index.
    pub fn push_container(&mut self) -> (r: usize)
        requires
            old(self).wf(),
            old(self).num_containers() < usize::MAX,
        ensures
            final(self).wf(),
            r == old(self).num_containers(),
            final(self).num_containers() == old(self).num_containers() + 1,
            final(self).num_elems() == old(self).num_elems(),
            final(self).lists() == old(self).lists().push(Seq::empty()),
            forall|e: int| 0 <= e < old(self).num_elems() ==> final(self).links(e) == old(self).links(e),
            forall|c: int| 0 <= c < old(self).num_containers() ==> final(self).ends(c) == old(self).ends(c),
            forall|e: int| 0 <= e < old(self).num_elems() ==> final(self).position(e) == old(self).position(e),
    {
        let r = self.conts.len();
        self.conts.push(ContainerEnds { head: None, tail: None });
        self.lists = Ghost(self.lists@.push(Seq::empty()));
        assert forall|c: int, i: int|
            0 <= c < self.conts@.len() && 0 <= i < self.lists@[c].len() implies #[trigger] self.slot_ok(c, i) by {
            assert(old(self).slot_ok(c, i));
        }
        assert forall|e: int| 0 <= e < self.elems@.len() implies #[trigger] self.elem_ok(e) by {
            assert(old(self).elem_ok(e));
        }
        assert forall|c: int| 0 <= c < self.conts@.len() implies #[trigger] self.ends_ok(c) by {
            if c < r {
                assert(old(self).ends_ok(c));
            }
        }
        r
    }

    pub fn head(&self, c: usize) -> (r: Option<usize>)
        requires
            c < self.num_containers(),
        ensures
            r == self.ends(c as int).head,
    {
        self.conts[c].head
    }

    pub fn tail(&self, c: usize) -> (r: Option<usize>)
        requires
            c < self.num_containers(),
        ensures
            r == self.ends(c as int).tail,
    {
        self.conts[c].tail
    }

    pub fn get_links(&self, e: usize) -> (r: ElemLinks)
        requires
            e < self.num_elems(),
        ensures
            r == self.links(e as int),
    {
        self.elems[e]
    }

    /// Links the unlinked element `e` at the front of container `c`.
    pub fn insert_at_front(&mut self, c: usize, e: usize)
        requires
            old(self).wf(),
            c < old(self).num_containers(),
            e < old(self).num_elems(),
            old(self).links(e as int).container.is_none(),
        ensures
            final(self).wf(),
            final(self).num_elems() == old(self).num_elems(),
            final(self).num_containers() == old(self).num_containers(),
            final(self).lists() == old(self).lists().update(
                c as int,
                old(self).lists()[c as int].insert(0, e),
            ),
    {
        let ghost s = self.lists@[c as int];
        let ghost old_pos = self.pos@;
        let ends = self.conts[c];
        assert(self.ends_ok(c as int));
        assert(self.elem_ok(e as int));
        match ends.head {
            None => {
                self.conts.set(c, ContainerEnds { head: Some(e), tail: Some(e) });
            },
            Some(h) => {
                assert(self.slot_ok(c as int, 0));
                let mut hl = self.elems[h];
                hl.prev = Some(e);
                self.elems.set(h, hl);
                self.conts.set(c, ContainerEnds { head: Some(e), tail: ends.tail });
            },
        }
        self.elems.set(e, ElemLinks { prev: None, next: ends.head, container: Some(c) });
        let ghost ns = s.insert(0, e);
        self.lists = Ghost(self.lists@.update(c as int, ns));
        self.pos = Ghost(
            Seq::new(
                old_pos.len(),
                |x: int|
                    if x == e {
                        0
                    } else if old(self).elems@[x].container == Some(c) {
                        old_pos[x] + 1
                    } else {
                        old_pos[x]
                    },
            ),
        );
        assert forall|c2: int, i: int|
            0 <= c2 < self.conts@.len() && 0 <= i < self.lists@[c2].len() implies #[trigger] self.slot_ok(c2, i) by {
            if c2 == c {
                if i > 0 {
                    assert(old(self).slot_ok(c2, i - 1));
                    if i > 1 {
                        assert(old(self).slot_ok(c2, i - 2));
                    }
                    if i < ns.len() - 1 {
                        assert(old(self).slot_ok(c2, i));
                    }
                }
            } else {
                assert(old(self).slot_ok(c2, i));
            }
        }
        assert forall|x: int| 0 <= x < self.elems@.len() implies #[trigger] self.elem_ok(x) by {
            assert(old(self).elem_ok(x));
        }
        assert forall|c2: int| 0 <= c2 < self.conts@.len() implies #[trigger] self.ends_ok(c2) by {
            assert(old(self).ends_ok(c2));
        }
    }

    /// Links the unlinked element `e` right after the linked element `at`.
    pub fn insert_after(&mut self, e: usize, at: usize)
        requires
            old(self).wf(),
            e < old(self).num_elems(),
            at < old(self).num_elems(),
            old(self).links(e as int).container.is_none(),
            old(self).links(at as int).container.is_some(),
        ensures
            final(self).wf(),
            final(self).num_elems() == old(self).num_elems(),
            final(self).num_containers() == old(self).num_containers(),
            ({
                let c = old(self).links(at as int).container.unwrap() as int;
                final(self).lists() == old(self).lists().update(
                    c,
                    old(self).lists()[c].insert(old(self).position(at as int) + 1, e),
                )
            }),
    {
        assert(self.elem_ok(e as int));
        assert(self.elem_ok(at as int));
        let al = self.elems[at];
        let c = al.container.unwrap();
        let ghost s = self.lists@[c as int];
        let ghost p = self.pos@[at as int];
        let ghost old_pos = self.pos@;
        assert(self.slot_ok(c as int, p));
        assert(self.ends_ok(c as int));
        match al.next {
            None => {
                let ends = self.conts[c];
                self.conts.set(c, ContainerEnds { head: ends.head, tail: Some(e) });
            },
            Some(nx) => {
                assert(self.slot_ok(c as int, p + 1));
                let mut nl = self.elems[nx];
                nl.prev = Some(e);
                self.elems.set(nx, nl);
            },
        }
        let mut al2 = self.elems[at];
        al2.next = Some(e);
        self.elems.set(at, al2);
        self.elems.set(e, ElemLinks { prev: Some(at), next: al.next, container: Some(c) });
        let ghost ns = s.insert(p + 1, e);
        self.lists = Ghost(self.lists@.update(c as int, ns));
        self.pos = Ghost(
            Seq::new(
                old_pos.len(),
                |x: int|
                    if x == e {
                        p + 1
                    } else if old(self).elems@[x].container == Some(c) && old_pos[x] > p {
                        old_pos[x] + 1
                    } else {
                        old_pos[x]
                    },
            ),
        );
        assert forall|c2: int, i: int|
            0 <= c2 < self.conts@.len() && 0 <= i < self.lists@[c2].len() implies #[trigger] self.slot_ok(c2, i) by {
            if c2 == c {
                if i <= p {
                    assert(old(self).slot_ok(c2, i));
                    if i > 0 {
                        assert(old(self).slot_ok(c2, i - 1));
                    }
                    if i < p {
                        assert(old(self).slot_ok(c2, i + 1));
                    }
                } else if i > p + 1 {
                    assert(old(self).slot_ok(c2, i - 1));
                    if i - 2 >= 0 {
                        assert(old(self).slot_ok(c2, i - 2));
                    }
                    if i < ns.len() - 1 {
                        assert(old(self).slot_ok(c2, i));
                    }
                }
            } else {
                assert(old(self).slot_ok(c2, i));
            }
        }
        assert forall|x: int| 0 <= x < self.elems@.len() implies #[trigger] self.elem_ok(x) by {
            assert(old(self).elem_ok(x));
        }
        assert forall|c2: int| 0 <= c2 < self.conts@.len() implies #[trigger] self.ends_ok(c2) by {
            assert(old(self).ends_ok(c2));
        }
    }

    /// Unlinks the linked element `e` from its container.
    pub fn remove(&mut self, e: usize)
        requires
            old(self).wf(),
            e < old(self).num_elems(),
            old(self).links(e as int).container.is_some(),
        ensures
            final(self).wf(),
            final(self).num_elems() == old(self).num_elems(),
            final(self).num_containers() == old(self).num_containers(),
            final(self).links(e as int).is_unlinked(),
            ({
                let c = old(self).links(e as int).container.unwrap() as int;
                final(self).lists() == old(self).lists().update(
                    c,
                    old(self).lists()[c].remove(old(self).position(e as int)),
                )
            }),
    {
        assert(self.elem_ok(e as int));
        let el = self.elems[e];
        let c = el.container.unwrap();
        let ghost s = self.lists@[c as int];
        let ghost p = self.pos@[e as int];
        let ghost old_pos = self.pos@;
        assert(self.slot_ok(c as int, p));
        assert(self.ends_ok(c as int));
        let ends = self.conts[c];
        match el.prev {
            None => {
                self.conts.set(c, ContainerEnds { head: el.next, tail: ends.tail });
            },
            Some(pv) => {
                assert(self.slot_ok(c as int, p - 1));
                let mut pl = self.elems[pv];
                pl.next = el.next;
                self.elems.set(pv, pl);
            },
        }
        match el.next {
            None => {
                let ends2 = self.conts[c];
                self.conts.set(c, ContainerEnds { head: ends2.head, tail: el.prev });
            },
            Some(nx) => {
                assert(old(self).slot_ok(c as int, p + 1));
                let mut nl = self.elems[nx];
                nl.prev = el.prev;
                self.elems.set(nx, nl);
            },
        }
        self.elems.set(e, ElemLinks { prev: None, next: None, container: None });
        let ghost ns = s.remove(p);
        self.lists = Ghost(self.lists@.update(c as int, ns));
        self.pos = Ghost(
            Seq::new(
                old_pos.len(),
                |x: int|
                    if old(self).elems@[x].container == Some(c) && old_pos[x] > p {
                        old_pos[x] - 1
                    } else {
                        old_pos[x]
                    },
            ),
        );
        assert forall|c2: int, i: int|
            0 <= c2 < self.conts@.len() && 0 <= i < self.lists@[c2].len() implies #[trigger] self.slot_ok(c2, i) by {
            if c2 == c {
                if i < p {
                    assert(old(self).slot_ok(c2, i));
                    if i > 0 {
                        assert(old(self).slot_ok(c2, i - 1));
                    }
                    assert(old(self).slot_ok(c2, i + 1));
                } else {
                    assert(old(self).slot_ok(c2, i + 1));
                    assert(old(self).slot_ok(c2, i));
                    if i + 2 < s.len() {
                        assert(old(self).slot_ok(c2, i + 2));
                    }
                }
            } else {
                assert(old(self).slot_ok(c2, i));
            }
        }
        assert forall|x: int| 0 <= x < self.elems@.len() implies #[trigger] self.elem_ok(x) by {
            assert(old(self).elem_ok(x));
            if x != e && old(self).elems@[x].container == Some(c) {
                assert(old(self).slot_ok(c as int, old_pos[x]));
            }
        }
        assert forall|c2: int| 0 <= c2 < self.conts@.len() implies #[trigger] self.ends_ok(c2) by {
            assert(old(self).ends_ok(c2));
        }
    }

    /// Links the unlinked element `e` at the back of container `c`.
    pub fn insert_at_back(&mut self, c: usize, e: usize)
        requires
            old(self).wf(),
            c < old(self).num_containers(),
            e < old(self).num_elems(),
            old(self).links(e as int).container.is_none(),
        ensures
            final(self).wf(),
            final(self).num_elems() == old(self).num_elems(),
            final(self).num_containers() == old(self).num_containers(),
            final(self).lists() == old(self).lists().update(c as int, old(self).lists()[c as int].push(e)),
    {
        assert(self.ends_ok(c as int));
        match self.conts[c].tail {
            None => {
                self.insert_at_front(c, e);
                assert(old(self).lists()[c as int].insert(0, e) =~= old(self).lists()[c as int].push(e));
            },
            Some(t) => {
                let ghost s = old(self).lists()[c as int];
                assert(s[s.len() - 1] == t);
                assert(self.slot_ok(c as int, s.len() - 1));
                self.insert_after(e, t);
                assert(s.insert(s.len() - 1 + 1, e) =~= s.push(e));
            },
        }
    }

    /// Links the unlinked element `e` right before the linked element `at`.
    pub fn insert_before(&mut self, e: usize, at: usize)
        requires
            old(self).wf(),
            e < old(self).num_elems(),
            at < old(self).num_elems(),
            old(self).links(e as int).container.is_none(),
            old(self).links(at as int).container.is_some(),
        ensures
            final(self).wf(),
            final(self).num_elems() == old(self).num_elems(),
            final(self).num_containers() == old(self).num_containers(),
            ({
                let c = old(self).links(at as int).container.unwrap() as int;
                final(self).lists() == old(self).lists().update(
                    c,
                    old(self).lists()[c].insert(old(self).position(at as int), e),
                )
            }),
    {
        assert(self.elem_ok(at as int));
        let l = self.elems[at];
        let c = l.container.unwrap();
        let ghost s = old(self).lists()[c as int];
        let ghost p = old(self).position(at as int);
        assert(self.slot_ok(c as int, p));
        match l.prev {
            None => {
                self.insert_at_front(c, e);
            },
            Some(pv) => {
                assert(s[p - 1] == pv);
                assert(self.slot_ok(c as int, p - 1));
                self.insert_after(e, pv);
            },
        }
    }

    /// No element occurs twice in a list.
    pub proof fn lemma_no_duplicates(&self, c: int)
        requires
            self.wf(),
            0 <= c < self.num_containers(),
        ensures
            self.lists()[c].no_duplicates(),
    {
        assert forall|i: int, j: int|
            0 <= i < self.lists@[c].len() && 0 <= j < self.lists@[c].len() && i != j implies self.lists@[c][i]
            != self.lists@[c][j] by {
            assert(self.slot_ok(c, i));
            assert(self.slot_ok(c, j));
        }
    }

    /// The facts of well-formedness about position `i` of container `c`.
    pub proof fn lemma_slot(&self, c: int, i: int)
        requires
            self.wf(),
            0 <= c < self.num_containers(),
            0 <= i < self.lists()[c].len(),
        ensures
            ({
                let s = self.lists()[c];
                let e = s[i] as int;
                &&& 0 <= e < self.num_elems()
                &&& self.position(e) == i
                &&& self.links(e).container == Some(c as usize)
                &&& self.links(e).prev == prev_in(s, i)
                &&& self.links(e).next == next_in(s, i)
            }),
            self.ends(c).head == first_of(self.lists()[c]),
            self.ends(c).tail == last_of(self.lists()[c]),
    {
        assert(self.slot_ok(c, i));
        assert(self.ends_ok(c));
    }

    /// A list is no longer than the number of elements.
    pub proof fn lemma_list_len(&self, c: int)
        requires
            self.wf(),
            0 <= c < self.num_containers(),
        ensures
            self.lists()[c].len() <= self.num_elems(),
            self.num_elems() <= usize::MAX,
    {
        self.lemma_no_duplicates(c);
        let s = self.lists@[c];
        let si = s.map_values(|x: usize| x as int);
        assert forall|i: int, j: int| 0 <= i < si.len() && 0 <= j < si.len() && i != j implies si[i] != si[j] by {
            assert(s[i] != s[j]);
        }
        assert(si.no_duplicates());
        si.unique_seq_to_set();
        let n = self.elems@.len() as int;
        vstd::set_lib::lemma_int_range(0, n);
        assert forall|x: int| si.to_set().contains(x) implies vstd::set_lib::set_int_range(0, n).contains(x) by {
            let i = choose|i: int| 0 <= i < si.len() && si[i] == x;
            assert(self.slot_ok(c, i));
        }
        vstd::set_lib::lemma_len_subset(si.to_set(), vstd::set_lib::set_int_range(0, n));
    }

    proof fn lemma_walk_next_from(&self, c: int, i: int)
        requires
            self.wf(),
            0 <= c < self.num_containers(),
            0 <= i < self.lists()[c].len(),
        ensures
            walk_next(self, Some(self.lists()[c][i]), (self.lists()[c].len() - i) as nat) == self.lists()[c].subrange(
                i,
                self.lists()[c].len() as int,
            ),
        decreases self.lists()[c].len() - i,
    {
        let s = self.lists@[c];
        assert(self.slot_ok(c, i));
        if i + 1 < s.len() {
            self.lemma_walk_next_from(c, i + 1);
            assert(seq![s[i]] + s.subrange(i + 1, s.len() as int) =~= s.subrange(i, s.len() as int));
        } else {
            assert(walk_next(self, None, 0) == Seq::<usize>::empty());
            assert(seq![s[i]] =~= s.subrange(i, s.len() as int));
        }
    }

    proof fn lemma_walk_prev_from(&self, c: int, i: int)
        requires
            self.wf(),
            0 <= c < self.num_containers(),
            0 <= i < self.lists()[c].len(),
        ensures
            walk_prev(self, Some(self.lists()[c][i]), (i + 1) as nat) == self.lists()[c].subrange(0, i + 1).reverse(),
        decreases i,
    {
        let s = self.lists@[c];
        assert(self.slot_ok(c, i));
        if i > 0 {
            self.lemma_walk_prev_from(c, i - 1);
            assert(seq![s[i]] + s.subrange(0, i).reverse() =~= s.subrange(0, i + 1).reverse());
        } else {
            assert(walk_prev(self, None, 0) == Seq::<usize>::empty());
            assert(seq![s[0]] =~= s.subrange(0, 1).reverse());
        }
    }

    /// Following `next` from the head visits the list in order and stops at
    /// the tail; following `prev` from the tail visits it in reverse order.
    /// Every listed element names its container, and an element without a
    /// container has no neighbours.
    pub proof fn lemma_list_integrity(&self, c: int)
        requires
            self.wf(),
            0 <= c < self.num_containers(),
        ensures
            walk_next(self, self.ends(c).head, self.lists()[c].len()) == self.lists()[c],
            walk_prev(self, self.ends(c).tail, self.lists()[c].len()) == self.lists()[c].reverse(),
            walk_next(self, self.ends(c).head, self.lists()[c].len()) == walk_prev(
                self,
                self.ends(c).tail,
                self.lists()[c].len(),
            ).reverse(),
            self.lists()[c].len() > 0 ==> self.links(self.lists()[c].last() as int).next.is_none(),
            self.lists()[c].len() > 0 ==> self.links(self.lists()[c][0] as int).prev.is_none(),
            forall|i: int|
                0 <= i < self.lists()[c].len() ==> self.links(#[trigger] self.lists()[c][i] as int).container == Some(
                    c as usize,
                ),
            forall|e: int|
                0 <= e < self.num_elems() && (#[trigger] self.links(e)).container.is_none() ==> self.links(
                    e,
                ).is_unlinked(),
    {
        let s = self.lists@[c];
        assert(self.ends_ok(c));
        if s.len() > 0 {
            self.lemma_walk_next_from(c, 0);
            self.lemma_walk_prev_from(c, s.len() - 1);
            assert(s.subrange(0, s.len() as int) =~= s);
            assert(self.slot_ok(c, s.len() - 1));
            assert(self.slot_ok(c, 0));
            assert(s.reverse().reverse() =~= s);
        } else {
            assert(s.reverse() =~= s);
        }
        assert forall|i: int| 0 <= i < s.len() implies self.links(#[trigger] self.lists()[c][i] as int).container == Some(
            c as usize,
        ) by {
            assert(self.slot_ok(c, i));
        }
        assert forall|e: int| 0 <= e < self.num_elems() && (#[trigger] self.links(e)).container.is_none() implies self.links(
            e,
        ).is_unlinked() by {
            assert(self.elem_ok(e));
        }
    }
}

} // verus!
