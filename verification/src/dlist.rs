//! A doubly-linked list with O(1) head, tail, count, push, pop, and insertion
//! and removal next to a node. Nodes live in an arena owned by the list; a
//! `DListNode` is a handle to one of them.

use vstd::prelude::*;

verus! {

/// A handle to a node of a list.
#[derive(Clone, Copy, PartialEq, Eq, Structural, Debug)]
pub struct DListNode {
    pub idx: usize,
}

/// A node that is on no list yet.
pub struct LooseNode<T> {
    pub data: T,
}

struct Slot<T> {
    data: T,
    linked: bool,
    prev: Option<usize>,
    next: Option<usize>,
}

/// A doubly-linked list.
pub struct DList<T> {
    slots: Vec<Slot<T>>,
    size: usize,
    hd: Option<usize>,
    tl: Option<usize>,
    order: Ghost<Seq<usize>>,
}

/// Creates a node, on no list yet, holding `data`.
pub fn create_node<T>(data: T) -> (n: LooseNode<T>)
    ensures
        n.data == data,
{
    LooseNode { data }
}

/// Creates an empty list.
pub fn create<T>() -> (l: DList<T>)
    ensures
        l.wf(),
        l@ == Seq::<T>::empty(),
{
    DList { slots: Vec::new(), size: 0, hd: None, tl: None, order: Ghost(Seq::empty()) }
}

/// Creates a list holding one element.
pub fn from_elt<T>(data: T) -> (l: DList<T>)
    ensures
        l.wf(),
        l@ == seq![data],
{
    let mut l = create();
    l.push(data);
    l
}

/// Creates a list holding the elements of `v`, in order.
pub fn from_vec<T: Copy>(v: &[T]) -> (l: DList<T>)
    ensures
        l.wf(),
        l@ == v@,
{
    let mut l = create();
    let mut i: usize = 0;
    while i < v.len()
        invariant
            l.wf(),
            i <= v@.len(),
            l@ == v@.take(i as int),
        decreases v@.len() - i,
    {
        l.push(v[i]);
        proof {
            assert(v@.take(i + 1) =~= v@.take(i as int).push(v@[i as int]));
        }
        i += 1;
    }
    proof {
        assert(v@.take(i as int) =~= v@);
    }
    l
}

impl<T> DList<T> {
    /// The arena indices of the nodes, head first.
    pub closed spec fn nodes(&self) -> Seq<usize> {
        self.order@
    }

    /// The data of the node in arena slot `i` (on the list or not).
    pub closed spec fn datum(&self, i: int) -> T {
        self.slots@[i].data
    }

    /// Arena slot `i` has been handed out.
    pub closed spec fn allocated(&self, i: int) -> bool {
        0 <= i < self.slots@.len()
    }

    /// `n` is a node of this list.
    pub open spec fn has(&self, n: DListNode) -> bool {
        self.nodes().contains(n.idx)
    }

    /// The list's nodes are linked both ways in the order of `nodes`, the
    /// head and tail are its ends, and the size is its length.
    pub closed spec fn wf(&self) -> bool {
        Self::raw_wf(self.slots@, self.size, self.hd, self.tl, self.order@)
    }
}

/// The arena after `x` (a fresh slot holding `data`) goes between positions
/// `p - 1` and `p` of the order `o`.
spec fn slots_after_insert<T>(old: Seq<Slot<T>>, o: Seq<usize>, p: int, x: usize) -> Seq<Slot<T>> {
    Seq::new(
        old.len(),
        |i: int|
            if i == x {
                Slot {
                    data: old[i].data,
                    linked: true,
                    prev: if p == 0 { None } else { Some(o[p - 1]) },
                    next: if p == o.len() { None } else { Some(o[p]) },
                }
            } else if p > 0 && i == o[p - 1] {
                Slot { next: Some(x), ..old[i] }
            } else if p < o.len() && i == o[p] {
                Slot { prev: Some(x), ..old[i] }
            } else {
                old[i]
            },
    )
}

/// The arena after the node at position `p` of `o` leaves the list.
spec fn slots_after_remove<T>(old: Seq<Slot<T>>, o: Seq<usize>, p: int) -> Seq<Slot<T>> {
    Seq::new(
        old.len(),
        |i: int|
            if i == o[p] {
                Slot { linked: false, prev: None, next: None, ..old[i] }
            } else if p > 0 && i == o[p - 1] {
                Slot { next: if p == o.len() - 1 { None } else { Some(o[p + 1]) }, ..old[i] }
            } else if p < o.len() - 1 && i == o[p + 1] {
                Slot { prev: if p == 0 { None } else { Some(o[p - 1]) }, ..old[i] }
            } else {
                old[i]
            },
    )
}

impl<T> DList<T> {
    spec fn raw_wf(slots: Seq<Slot<T>>, size: usize, hd: Option<usize>, tl: Option<usize>, o: Seq<usize>) -> bool {
        &&& size == o.len()
        &&& o.len() <= slots.len() <= usize::MAX
        &&& forall|k: int| 0 <= k < o.len() ==> #[trigger] o[k] < slots.len()
        &&& forall|k: int, j: int| 0 <= k < o.len() && 0 <= j < o.len() && k != j ==> o[k] != o[j]
        &&& hd == if o.len() == 0 { None } else { Some(o[0]) }
        &&& tl == if o.len() == 0 { None } else { Some(o.last()) }
        &&& forall|k: int|
            0 <= k < o.len() ==> {
                &&& (#[trigger] slots[o[k] as int]).linked
                &&& slots[o[k] as int].prev == if k == 0 { None } else { Some(o[k - 1]) }
                &&& slots[o[k] as int].next == if k == o.len() - 1 {
                    None
                } else {
                    Some(o[k + 1])
                }
            }
        &&& forall|i: int| 0 <= i < slots.len() && (#[trigger] slots[i]).linked ==> o.contains(i as usize)
    }

    proof fn lemma_insert(
        slots: Seq<Slot<T>>,
        size: usize,
        hd: Option<usize>,
        tl: Option<usize>,
        o: Seq<usize>,
        p: int,
        x: usize,
    )
        requires
            Self::raw_wf(slots, size, hd, tl, o),
            0 <= p <= o.len(),
            x < slots.len(),
            !slots[x as int].linked,
            o.len() <= x < usize::MAX,
        ensures
            Self::raw_wf(
                slots_after_insert(slots, o, p, x),
                (size + 1) as usize,
                if p == 0 { Some(x) } else { hd },
                if p == o.len() { Some(x) } else { tl },
                o.insert(p, x),
            ),
            o.insert(p, x).map_values(|i: usize| slots_after_insert(slots, o, p, x)[i as int].data)
                == o.map_values(|i: usize| slots[i as int].data).insert(p, slots[x as int].data),
    {
        let ns = slots_after_insert(slots, o, p, x);
        let no = o.insert(p, x);
        assert(!o.contains(x));
        assert forall|k: int| 0 <= k < no.len() implies #[trigger] no[k] < ns.len() by {
            if k < p {
                assert(no[k] == o[k]);
            } else if k > p {
                assert(no[k] == o[k - 1]);
            }
        }
        assert forall|k: int, j: int|
            0 <= k < no.len() && 0 <= j < no.len() && k != j implies no[k] != no[j] by {
            if k != p && j != p {
                let ko = if k < p { k } else { k - 1 };
                let jo = if j < p { j } else { j - 1 };
                assert(no[k] == o[ko]);
                assert(no[j] == o[jo]);
            } else if k == p {
                let jo = if j < p { j } else { j - 1 };
                assert(no[j] == o[jo]);
            } else {
                let ko = if k < p { k } else { k - 1 };
                assert(no[k] == o[ko]);
            }
        }
        assert forall|k: int| 0 <= k < no.len() implies {
            &&& (#[trigger] ns[no[k] as int]).linked
            &&& ns[no[k] as int].prev == if k == 0 { None } else { Some(no[k - 1]) }
            &&& ns[no[k] as int].next == if k == no.len() - 1 { None } else { Some(no[k + 1]) }
        } by {
            if k < p {
                assert(no[k] == o[k]);
                if k > 0 {
                    assert(no[k - 1] == o[k - 1]);
                }
                if k + 1 < p {
                    assert(no[k + 1] == o[k + 1]);
                }
                assert(o[k] != x);
                if k == p - 1 {
                    assert(ns[o[k] as int].next == Some(x));
                } else {
                    assert(o[k] != o[p - 1]);
                    if p < o.len() {
                        assert(o[k] != o[p]);
                    }
                }
            } else if k > p {
                assert(no[k] == o[k - 1]);
                if k + 1 < no.len() {
                    assert(no[k + 1] == o[k]);
                }
                if k - 1 > p {
                    assert(no[k - 1] == o[k - 2]);
                }
                assert(o[k - 1] != x);
                if k == p + 1 {
                    assert(ns[o[k - 1] as int].prev == Some(x));
                } else {
                    assert(o[k - 1] != o[p]);
                    if p > 0 {
                        assert(o[k - 1] != o[p - 1]);
                    }
                }
            } else {
                if p > 0 {
                    assert(no[p - 1] == o[p - 1]);
                }
                if p < o.len() {
                    assert(no[p + 1] == o[p]);
                }
            }
        }
        assert forall|i: int| 0 <= i < ns.len() && (#[trigger] ns[i]).linked implies no.contains(
            i as usize,
        ) by {
            if i == x {
                assert(no[p] == x);
            } else {
                assert(slots[i].linked);
                assert(o.contains(i as usize));
                let k = choose|k: int| 0 <= k < o.len() && o[k] == i as usize;
                if k < p {
                    assert(no[k] == o[k]);
                } else {
                    assert(no[k + 1] == o[k]);
                }
            }
        }
        if o.len() > 0 {
            if p == o.len() {
                assert(no.last() == x);
            } else {
                assert(no.last() == o.last());
            }
            if p > 0 {
                assert(no[0] == o[0]);
            }
        }
        assert(no.map_values(|i: usize| ns[i as int].data) =~= o.map_values(
            |i: usize| slots[i as int].data,
        ).insert(p, slots[x as int].data)) by {
            assert forall|k: int| 0 <= k < no.len() implies #[trigger] ns[no[k] as int].data == (
            if k < p {
                slots[o[k] as int].data
            } else if k == p {
                slots[x as int].data
            } else {
                slots[o[k - 1] as int].data
            }) by {
                if k < p {
                    assert(no[k] == o[k]);
                } else if k > p {
                    assert(no[k] == o[k - 1]);
                }
            }
        }
    }

    proof fn lemma_remove(
        slots: Seq<Slot<T>>,
        size: usize,
        hd: Option<usize>,
        tl: Option<usize>,
        o: Seq<usize>,
        p: int,
    )
        requires
            Self::raw_wf(slots, size, hd, tl, o),
            0 <= p < o.len(),
        ensures
            Self::raw_wf(
                slots_after_remove(slots, o, p),
                (size - 1) as usize,
                if o.len() == 1 { None } else if p == 0 { Some(o[1]) } else { hd },
                if o.len() == 1 { None } else if p == o.len() - 1 { Some(o[p - 1]) } else { tl },
                o.remove(p),
            ),
            o.remove(p).map_values(|i: usize| slots_after_remove(slots, o, p)[i as int].data)
                == o.map_values(|i: usize| slots[i as int].data).remove(p),
            slots_after_remove(slots, o, p)[o[p] as int].data == slots[o[p] as int].data,
    {
        let ns = slots_after_remove(slots, o, p);
        let no = o.remove(p);
        let x = o[p];
        assert forall|k: int| 0 <= k < no.len() implies #[trigger] no[k] < ns.len() by {
            if k < p {
                assert(no[k] == o[k]);
            } else {
                assert(no[k] == o[k + 1]);
            }
        }
        assert forall|k: int, j: int|
            0 <= k < no.len() && 0 <= j < no.len() && k != j implies no[k] != no[j] by {
            let ko = if k < p { k } else { k + 1 };
            let jo = if j < p { j } else { j + 1 };
            assert(no[k] == o[ko]);
            assert(no[j] == o[jo]);
        }
        assert forall|k: int| 0 <= k < no.len() implies {
            &&& (#[trigger] ns[no[k] as int]).linked
            &&& ns[no[k] as int].prev == if k == 0 { None } else { Some(no[k - 1]) }
            &&& ns[no[k] as int].next == if k == no.len() - 1 { None } else { Some(no[k + 1]) }
        } by {
            let ko = if k < p { k } else { k + 1 };
            assert(no[k] == o[ko]);
            assert(o[ko] != x);
            if k > 0 {
                let kp = if k - 1 < p { k - 1 } else { k };
                assert(no[k - 1] == o[kp]);
            }
            if k + 1 < no.len() {
                let kn = if k + 1 < p { k + 1 } else { k + 2 };
                assert(no[k + 1] == o[kn]);
            }
            if p > 0 && ko != p - 1 {
                assert(o[ko] != o[p - 1]);
            }
            if p < o.len() - 1 && ko != p + 1 {
                assert(o[ko] != o[p + 1]);
            }
        }
        assert forall|i: int| 0 <= i < ns.len() && (#[trigger] ns[i]).linked implies no.contains(
            i as usize,
        ) by {
            assert(slots[i].linked);
            assert(i != o[p]);
            let k = choose|k: int| 0 <= k < o.len() && o[k] == i as usize;
            assert(k != p);
            if k < p {
                assert(no[k] == o[k]);
            } else {
                assert(no[k - 1] == o[k]);
            }
        }
        if no.len() > 0 {
            if p == 0 {
                assert(no[0] == o[1]);
            } else {
                assert(no[0] == o[0]);
            }
            if p == o.len() - 1 {
                assert(no.last() == o[p - 1]);
            } else {
                assert(no.last() == o.last());
            }
        }
        assert(no.map_values(|i: usize| ns[i as int].data) =~= o.map_values(
            |i: usize| slots[i as int].data,
        ).remove(p)) by {
            assert forall|k: int| 0 <= k < no.len() implies #[trigger] ns[no[k] as int].data == (
            if k < p {
                slots[o[k] as int].data
            } else {
                slots[o[k + 1] as int].data
            }) by {
                if k < p {
                    assert(no[k] == o[k]);
                } else {
                    assert(no[k] == o[k + 1]);
                }
            }
        }
    }
}

impl<T> DList<T> {
    /// Position of node `n` on the list.
    pub closed spec fn pos(&self, n: DListNode) -> int {
        choose|k: int| 0 <= k < self.order@.len() && self.order@[k] == n.idx
    }

    /// What a well-formed list's nodes and positions mean.
    pub proof fn lemma_nodes(&self)
        requires
            self.wf(),
        ensures
            self.nodes().len() == self@.len(),
            forall|k: int| 0 <= k < self@.len() ==> #[trigger] self.datum(self.nodes()[k] as int) == self@[k],
            forall|k: int| 0 <= k < self@.len() ==> self.allocated(#[trigger] self.nodes()[k] as int),
            forall|k: int, j: int|
                0 <= k < self@.len() && 0 <= j < self@.len() && k != j ==> self.nodes()[k] != self.nodes()[j],
            forall|n: DListNode| #[trigger] self.has(n) ==> 0 <= self.pos(n) < self@.len() && self.nodes()[self.pos(n)] == n.idx,
            forall|k: int| 0 <= k < self@.len() ==> #[trigger] self.pos(DListNode { idx: self.nodes()[k] }) == k,
    {
        assert forall|n: DListNode| #[trigger] self.has(n) implies 0 <= self.pos(n) < self@.len() && self.nodes()[self.pos(n)] == n.idx by {
            let k = choose|k: int| 0 <= k < self.order@.len() && self.order@[k] == n.idx;
        }
        assert forall|k: int| 0 <= k < self@.len() implies #[trigger] self.pos(DListNode { idx: self.nodes()[k] }) == k by {
            let n = DListNode { idx: self.nodes()[k] };
            assert(self.order@.contains(n.idx));
        }
    }

    /// A fresh slot holding `data`, on no list.
    fn new_link(&mut self, data: T) -> (x: usize)
        requires
            old(self).wf(),
        ensures
            final(self).slots@ == old(self).slots@.push(Slot { data, linked: false, prev: None, next: None }),
            x == old(self).slots@.len(),
            x < usize::MAX,
            final(self).size == old(self).size,
            final(self).hd == old(self).hd,
            final(self).tl == old(self).tl,
            final(self).order == old(self).order,
    {
        let x = self.slots.len();
        self.slots.push(Slot { data, linked: false, prev: None, next: None });
        assert(self.slots@.len() == self.slots.len());
        x
    }

    /// Links two nodes together; where either is absent, sets the head or
    /// tail instead.
    fn link(&mut self, before: Option<usize>, after: Option<usize>)
        requires
            before matches Some(b) ==> b < old(self).slots@.len(),
            after matches Some(a) ==> a < old(self).slots@.len(),
        ensures
            ({
                let s1 = match before {
                    Some(b) => old(self).slots@.update(b as int, Slot { next: after, ..old(self).slots@[b as int] }),
                    None => old(self).slots@,
                };
                final(self).slots@ == match after {
                    Some(a) => s1.update(a as int, Slot { prev: before, ..s1[a as int] }),
                    None => s1,
                }
            }),
            final(self).hd == if before is None { after } else { old(self).hd },
            final(self).tl == if after is None { before } else { old(self).tl },
            final(self).size == old(self).size,
            final(self).order == old(self).order,
    {
        match before {
            Some(b) => {
                self.slots[b].next = after;
            },
            None => {
                self.hd = after;
            },
        }
        match after {
            Some(a) => {
                self.slots[a].prev = before;
            },
            None => {
                self.tl = before;
            },
        }
    }

    /// Puts the fresh node `x` at the head.
    fn add_head(&mut self, x: usize)
        requires
            old(self).wf(),
            x < old(self).slots@.len(),
            !old(self).slots@[x as int].linked,
            old(self).order@.len() <= x < usize::MAX,
            old(self).slots@[x as int].prev is None,
        ensures
            final(self).wf(),
            final(self).order@ == old(self).order@.insert(0, x),
            final(self)@ == old(self)@.insert(0, old(self).slots@[x as int].data),
            final(self).slots@.len() == old(self).slots@.len(),
            forall|i: int| 0 <= i < final(self).slots@.len() ==> #[trigger] final(self).slots@[i].data == old(self).slots@[i].data,
    {
        let ghost o = self.order@;
        let ghost old_slots = self.slots@;
        proof {
            Self::lemma_insert(self.slots@, self.size, self.hd, self.tl, o, 0, x);
        }
        let hd = self.hd;
        self.link(Some(x), hd);
        self.hd = Some(x);
        self.slots[x].linked = true;
        self.size = self.size + 1;
        self.order = Ghost(o.insert(0, x));
        proof {
            assert(self.slots@ =~= slots_after_insert(old_slots, o, 0, x));
        }
    }

    /// Puts the fresh node `x` at the tail.
    fn add_tail(&mut self, x: usize)
        requires
            old(self).wf(),
            x < old(self).slots@.len(),
            !old(self).slots@[x as int].linked,
            old(self).order@.len() <= x < usize::MAX,
            old(self).slots@[x as int].next is None,
        ensures
            final(self).wf(),
            final(self).order@ == old(self).order@.push(x),
            final(self)@ == old(self)@.push(old(self).slots@[x as int].data),
            final(self).slots@.len() == old(self).slots@.len(),
            forall|i: int| 0 <= i < final(self).slots@.len() ==> #[trigger] final(self).slots@[i].data == old(self).slots@[i].data,
    {
        let ghost o = self.order@;
        let ghost old_slots = self.slots@;
        proof {
            Self::lemma_insert(self.slots@, self.size, self.hd, self.tl, o, o.len() as int, x);
            assert(o.insert(o.len() as int, x) =~= o.push(x));
            assert(self@.insert(o.len() as int, old_slots[x as int].data) =~= self@.push(old_slots[x as int].data));
        }
        let tl = self.tl;
        self.link(tl, Some(x));
        self.tl = Some(x);
        self.slots[x].linked = true;
        self.size = self.size + 1;
        self.order = Ghost(o.push(x));
        proof {
            assert(self.slots@ =~= slots_after_insert(old_slots, o, o.len() as int, x));
        }
    }

    /// Puts the fresh node `x` just before `nb`.
    fn insert_left(&mut self, x: usize, nb: DListNode)
        requires
            old(self).wf(),
            old(self).has(nb),
            x < old(self).slots@.len(),
            !old(self).slots@[x as int].linked,
            old(self).order@.len() <= x < usize::MAX,
        ensures
            final(self).wf(),
            final(self).order@ == old(self).order@.insert(old(self).pos(nb), x),
            final(self)@ == old(self)@.insert(old(self).pos(nb), old(self).slots@[x as int].data),
            final(self).slots@.len() == old(self).slots@.len(),
            forall|i: int| 0 <= i < final(self).slots@.len() ==> #[trigger] final(self).slots@[i].data == old(self).slots@[i].data,
    {
        let ghost o = self.order@;
        let ghost old_slots = self.slots@;
        let ghost p = self.pos(nb);
        proof {
            self.lemma_nodes();
            Self::lemma_insert(self.slots@, self.size, self.hd, self.tl, o, p, x);
            assert(self.slots@[nb.idx as int].prev == if p == 0 { None } else { Some(o[p - 1]) });
        }
        let prev = self.slots[nb.idx].prev;
        self.link(prev, Some(x));
        self.link(Some(x), Some(nb.idx));
        self.slots[x].linked = true;
        self.size = self.size + 1;
        self.order = Ghost(o.insert(p, x));
        proof {
            assert(self.slots@ =~= slots_after_insert(old_slots, o, p, x));
        }
    }

    /// Puts the fresh node `x` just after `nb`.
    fn insert_right(&mut self, nb: DListNode, x: usize)
        requires
            old(self).wf(),
            old(self).has(nb),
            x < old(self).slots@.len(),
            !old(self).slots@[x as int].linked,
            old(self).order@.len() <= x < usize::MAX,
        ensures
            final(self).wf(),
            final(self).order@ == old(self).order@.insert(old(self).pos(nb) + 1, x),
            final(self)@ == old(self)@.insert(old(self).pos(nb) + 1, old(self).slots@[x as int].data),
            final(self).slots@.len() == old(self).slots@.len(),
            forall|i: int| 0 <= i < final(self).slots@.len() ==> #[trigger] final(self).slots@[i].data == old(self).slots@[i].data,
    {
        let ghost o = self.order@;
        let ghost old_slots = self.slots@;
        let ghost p = self.pos(nb) + 1;
        proof {
            self.lemma_nodes();
            Self::lemma_insert(self.slots@, self.size, self.hd, self.tl, o, p, x);
            assert(self.slots@[nb.idx as int].next == if p == o.len() { None } else { Some(o[p]) });
        }
        let next = self.slots[nb.idx].next;
        self.link(Some(x), next);
        self.link(Some(nb.idx), Some(x));
        self.slots[x].linked = true;
        self.size = self.size + 1;
        self.order = Ghost(o.insert(p, x));
        proof {
            assert(self.slots@ =~= slots_after_insert(old_slots, o, p, x));
        }
    }

    /// Takes node `n` off the list.
    fn unlink(&mut self, n: DListNode)
        requires
            old(self).wf(),
            old(self).has(n),
        ensures
            final(self).wf(),
            final(self).order@ == old(self).order@.remove(old(self).pos(n)),
            final(self)@ == old(self)@.remove(old(self).pos(n)),
            final(self).slots@.len() == old(self).slots@.len(),
            forall|i: int| 0 <= i < final(self).slots@.len() ==> #[trigger] final(self).slots@[i].data == old(self).slots@[i].data,
    {
        let ghost o = self.order@;
        let ghost old_slots = self.slots@;
        let ghost p = self.pos(n);
        proof {
            self.lemma_nodes();
            Self::lemma_remove(self.slots@, self.size, self.hd, self.tl, o, p);
        }
        let prev = self.slots[n.idx].prev;
        let next = self.slots[n.idx].next;
        self.link(prev, next);
        self.slots[n.idx].prev = None;
        self.slots[n.idx].next = None;
        self.slots[n.idx].linked = false;
        self.size = self.size - 1;
        self.order = Ghost(o.remove(p));
        proof {
            assert(self.slots@ =~= slots_after_remove(old_slots, o, p));
        }
    }
}

impl<T> DList<T> {
    /// The size of the list. O(1).
    pub fn len(&self) -> (n: usize)
        requires
            self.wf(),
        ensures
            n == self@.len(),
    {
        self.size
    }

    /// Whether the list is empty. O(1).
    pub fn is_empty(&self) -> (b: bool)
        requires
            self.wf(),
        ensures
            b == (self@.len() == 0),
    {
        self.len() == 0
    }

    /// Whether the list is not empty. O(1).
    pub fn is_not_empty(&self) -> (b: bool)
        requires
            self.wf(),
        ensures
            b == (self@.len() != 0),
    {
        self.len() != 0
    }

    /// Adds data at the head of the list. O(1).
    pub fn push_head(&mut self, data: T)
        requires
            old(self).wf(),
        ensures
            final(self).wf(),
            final(self)@ == old(self)@.insert(0, data),
            final(self).nodes().len() == old(self).nodes().len() + 1,
            final(self).nodes().drop_first() == old(self).nodes(),
            !old(self).allocated(final(self).nodes()[0] as int),
    {
        self.push_head_n(data);
        proof {
            assert(self.nodes().drop_first() =~= old(self).nodes());
        }
    }

    /// Adds data at the head of the list, and returns its node. O(1).
    pub fn push_head_n(&mut self, data: T) -> (n: DListNode)
        requires
            old(self).wf(),
        ensures
            final(self).wf(),
            final(self)@ == old(self)@.insert(0, data),
            final(self).nodes() == old(self).nodes().insert(0, n.idx),
            !old(self).allocated(n.idx as int),
    {
        let ghost pre = *self;
        let x = self.new_link(data);
        proof {
            assert(self.wf()) by {
                assert forall|i: int| 0 <= i < self.slots@.len() && (#[trigger] self.slots@[i]).linked implies self.order@.contains(i as usize) by {
                    assert(pre.slots@[i].linked);
                }
            }
            assert(self@ =~= pre@);
        }
        self.add_head(x);
        DListNode { idx: x }
    }

    /// Adds data at the tail of the list. O(1).
    pub fn push(&mut self, data: T)
        requires
            old(self).wf(),
        ensures
            final(self).wf(),
            final(self)@ == old(self)@.push(data),
            final(self).nodes().len() == old(self).nodes().len() + 1,
            final(self).nodes().drop_last() == old(self).nodes(),
            !old(self).allocated(final(self).nodes().last() as int),
    {
        self.push_n(data);
        proof {
            assert(self.nodes().drop_last() =~= old(self).nodes());
        }
    }

    /// Adds data at the tail of the list, and returns its node. O(1).
    pub fn push_n(&mut self, data: T) -> (n: DListNode)
        requires
            old(self).wf(),
        ensures
            final(self).wf(),
            final(self)@ == old(self)@.push(data),
            final(self).nodes() == old(self).nodes().push(n.idx),
            !old(self).allocated(n.idx as int),
    {
        let ghost pre = *self;
        let x = self.new_link(data);
        proof {
            assert(self.wf()) by {
                assert forall|i: int| 0 <= i < self.slots@.len() && (#[trigger] self.slots@[i]).linked implies self.order@.contains(i as usize) by {
                    assert(pre.slots@[i].linked);
                }
            }
            assert(self@ =~= pre@);
        }
        self.add_tail(x);
        DListNode { idx: x }
    }

    /// Inserts data just before node `nb`. O(1).
    pub fn insert_before(&mut self, data: T, nb: DListNode)
        requires
            old(self).wf(),
            old(self).has(nb),
        ensures
            final(self).wf(),
            final(self)@ == old(self)@.insert(old(self).pos(nb), data),
            final(self).nodes().len() == old(self).nodes().len() + 1,
            final(self).nodes().remove(old(self).pos(nb)) == old(self).nodes(),
            !old(self).allocated(final(self).nodes()[old(self).pos(nb)] as int),
    {
        proof {
            old(self).lemma_nodes();
        }
        self.insert_before_n(data, nb);
        proof {
            assert(self.nodes().remove(old(self).pos(nb)) =~= old(self).nodes());
        }
    }

    /// Inserts a node that is on no list just before node `nb`, and returns
    /// its handle. O(1).
    pub fn insert_n_before(&mut self, nobe: LooseNode<T>, nb: DListNode) -> (n: DListNode)
        requires
            old(self).wf(),
            old(self).has(nb),
        ensures
            final(self).wf(),
            final(self)@ == old(self)@.insert(old(self).pos(nb), nobe.data),
            final(self).nodes() == old(self).nodes().insert(old(self).pos(nb), n.idx),
    {
        self.insert_before_n(nobe.data, nb)
    }

    /// Inserts data just before node `nb`, and returns its node. O(1).
    pub fn insert_before_n(&mut self, data: T, nb: DListNode) -> (n: DListNode)
        requires
            old(self).wf(),
            old(self).has(nb),
        ensures
            final(self).wf(),
            final(self)@ == old(self)@.insert(old(self).pos(nb), data),
            final(self).nodes() == old(self).nodes().insert(old(self).pos(nb), n.idx),
            !old(self).allocated(n.idx as int),
    {
        let ghost pre = *self;
        let x = self.new_link(data);
        proof {
            assert(self.order@ == pre.order@);
            assert(self.wf()) by {
                assert forall|i: int| 0 <= i < self.slots@.len() && (#[trigger] self.slots@[i]).linked implies self.order@.contains(i as usize) by {
                    assert(pre.slots@[i].linked);
                }
            }
            assert(self@ =~= pre@);
        }
        self.insert_left(x, nb);
        DListNode { idx: x }
    }

    /// Inserts data just after node `nb`. O(1).
    pub fn insert_after(&mut self, data: T, nb: DListNode)
        requires
            old(self).wf(),
            old(self).has(nb),
        ensures
            final(self).wf(),
            final(self)@ == old(self)@.insert(old(self).pos(nb) + 1, data),
            final(self).nodes().len() == old(self).nodes().len() + 1,
            final(self).nodes().remove(old(self).pos(nb) + 1) == old(self).nodes(),
            !old(self).allocated(final(self).nodes()[old(self).pos(nb) + 1] as int),
    {
        proof {
            old(self).lemma_nodes();
        }
        self.insert_after_n(data, nb);
        proof {
            assert(self.nodes().remove(old(self).pos(nb) + 1) =~= old(self).nodes());
        }
    }

    /// Inserts a node that is on no list just after node `nb`, and returns
    /// its handle. O(1).
    pub fn insert_n_after(&mut self, nobe: LooseNode<T>, nb: DListNode) -> (n: DListNode)
        requires
            old(self).wf(),
            old(self).has(nb),
        ensures
            final(self).wf(),
            final(self)@ == old(self)@.insert(old(self).pos(nb) + 1, nobe.data),
            final(self).nodes() == old(self).nodes().insert(old(self).pos(nb) + 1, n.idx),
    {
        self.insert_after_n(nobe.data, nb)
    }

    /// Inserts data just after node `nb`, and returns its node. O(1).
    pub fn insert_after_n(&mut self, data: T, nb: DListNode) -> (n: DListNode)
        requires
            old(self).wf(),
            old(self).has(nb),
        ensures
            final(self).wf(),
            final(self)@ == old(self)@.insert(old(self).pos(nb) + 1, data),
            final(self).nodes() == old(self).nodes().insert(old(self).pos(nb) + 1, n.idx),
            !old(self).allocated(n.idx as int),
    {
        let ghost pre = *self;
        let x = self.new_link(data);
        proof {
            assert(self.wf()) by {
                assert forall|i: int| 0 <= i < self.slots@.len() && (#[trigger] self.slots@[i]).linked implies self.order@.contains(i as usize) by {
                    assert(pre.slots@[i].linked);
                }
            }
            assert(self@ =~= pre@);
        }
        self.insert_right(nb, x);
        DListNode { idx: x }
    }
}

impl<T> DList<T> {
    /// The node at the head, if any. O(1).
    pub fn peek_n(&self) -> (n: Option<DListNode>)
        requires
            self.wf(),
        ensures
            n == if self@.len() == 0 { None } else { Some(DListNode { idx: self.nodes()[0] }) },
    {
        match self.hd {
            Some(i) => Some(DListNode { idx: i }),
            None => None,
        }
    }

    /// The node at the tail, if any. O(1).
    pub fn peek_tail_n(&self) -> (n: Option<DListNode>)
        requires
            self.wf(),
        ensures
            n == if self@.len() == 0 {
                None
            } else {
                Some(DListNode { idx: self.nodes()[self@.len() - 1] })
            },
    {
        match self.tl {
            Some(i) => Some(DListNode { idx: i }),
            None => None,
        }
    }

    /// The node at the head; the list must not be empty. O(1).
    pub fn head_n(&self) -> (n: DListNode)
        requires
            self.wf(),
            self@.len() > 0,
        ensures
            n.idx == self.nodes()[0],
    {
        DListNode { idx: self.hd.unwrap() }
    }

    /// The node at the tail; the list must not be empty. O(1).
    pub fn tail_n(&self) -> (n: DListNode)
        requires
            self.wf(),
            self@.len() > 0,
        ensures
            n.idx == self.nodes()[self@.len() - 1],
    {
        DListNode { idx: self.tl.unwrap() }
    }

    /// Removes the node at the head and returns it (its data stays
    /// readable). O(1).
    pub fn pop_n(&mut self) -> (n: Option<DListNode>)
        requires
            old(self).wf(),
        ensures
            final(self).wf(),
            old(self)@.len() == 0 ==> n is None && final(self)@ == old(self)@,
            old(self)@.len() > 0 ==> {
                &&& n == Some(DListNode { idx: old(self).nodes()[0] })
                &&& final(self)@ == old(self)@.drop_first()
                &&& final(self).nodes() == old(self).nodes().drop_first()
                &&& final(self).allocated(old(self).nodes()[0] as int)
                &&& final(self).datum(old(self).nodes()[0] as int) == old(self)@[0]
            },
    {
        let hd = self.peek_n();
        match hd {
            Some(nobe) => {
                proof {
                    self.lemma_nodes();
                }
                self.unlink(nobe);
                proof {
                    assert(old(self)@.remove(0) =~= old(self)@.drop_first());
                    assert(old(self).order@.remove(0) =~= old(self).order@.drop_first());
                }
            },
            None => {},
        }
        hd
    }

    /// Removes the node at the tail and returns it (its data stays
    /// readable). O(1).
    pub fn pop_tail_n(&mut self) -> (n: Option<DListNode>)
        requires
            old(self).wf(),
        ensures
            final(self).wf(),
            old(self)@.len() == 0 ==> n is None && final(self)@ == old(self)@,
            old(self)@.len() > 0 ==> {
                &&& n == Some(DListNode { idx: old(self).nodes()[old(self)@.len() - 1] })
                &&& final(self)@ == old(self)@.drop_last()
                &&& final(self).nodes() == old(self).nodes().drop_last()
                &&& final(self).allocated(old(self).nodes()[old(self)@.len() - 1] as int)
                &&& final(self).datum(old(self).nodes()[old(self)@.len() - 1] as int)
                    == old(self)@[old(self)@.len() - 1]
            },
    {
        let tl = self.peek_tail_n();
        match tl {
            Some(nobe) => {
                proof {
                    self.lemma_nodes();
                }
                self.unlink(nobe);
                proof {
                    let k = old(self)@.len() - 1;
                    assert(old(self)@.remove(k) =~= old(self)@.drop_last());
                    assert(old(self).order@.remove(k) =~= old(self).order@.drop_last());
                }
            },
            None => {},
        }
        tl
    }

    /// Removes node `nobe` from anywhere in the list. O(1).
    pub fn remove(&mut self, nobe: DListNode)
        requires
            old(self).wf(),
            old(self).has(nobe),
        ensures
            final(self).wf(),
            final(self)@ == old(self)@.remove(old(self).pos(nobe)),
            final(self).nodes() == old(self).nodes().remove(old(self).pos(nobe)),
            !final(self).has(nobe),
            final(self).allocated(nobe.idx as int),
            final(self).datum(nobe.idx as int) == old(self).datum(nobe.idx as int),
    {
        proof {
            old(self).lemma_nodes();
        }
        self.unlink(nobe);
        proof {
            let o = old(self).nodes();
            let p = old(self).pos(nobe);
            if self.nodes().contains(nobe.idx) {
                let j = choose|j: int| 0 <= j < self.nodes().len() && self.nodes()[j] == nobe.idx;
                if j < p {
                    assert(self.nodes()[j] == o[j]);
                } else {
                    assert(self.nodes()[j] == o[j + 1]);
                }
            }
        }
    }

    /// The data of node `n`, on the list or taken off it.
    pub fn data(&self, n: DListNode) -> (d: &T)
        requires
            self.allocated(n.idx as int),
        ensures
            *d == self.datum(n.idx as int),
    {
        &self.slots[n.idx].data
    }

    /// The node after `n`, if there is one.
    pub fn next_link(&self, n: DListNode) -> (r: Option<DListNode>)
        requires
            self.wf(),
            self.has(n),
        ensures
            r == if self.pos(n) == self@.len() - 1 {
                None
            } else {
                Some(DListNode { idx: self.nodes()[self.pos(n) + 1] })
            },
    {
        proof {
            self.lemma_nodes();
        }
        match self.slots[n.idx].next {
            Some(i) => Some(DListNode { idx: i }),
            None => None,
        }
    }

    /// The node after `n`, which must exist.
    pub fn next_node(&self, n: DListNode) -> (r: DListNode)
        requires
            self.wf(),
            self.has(n),
            self.pos(n) < self@.len() - 1,
        ensures
            r.idx == self.nodes()[self.pos(n) + 1],
    {
        self.next_link(n).unwrap()
    }

    /// The node before `n`, if there is one.
    pub fn prev_link(&self, n: DListNode) -> (r: Option<DListNode>)
        requires
            self.wf(),
            self.has(n),
        ensures
            r == if self.pos(n) == 0 {
                None
            } else {
                Some(DListNode { idx: self.nodes()[self.pos(n) - 1] })
            },
    {
        proof {
            self.lemma_nodes();
        }
        match self.slots[n.idx].prev {
            Some(i) => Some(DListNode { idx: i }),
            None => None,
        }
    }

    /// The node before `n`, which must exist.
    pub fn prev_node(&self, n: DListNode) -> (r: DListNode)
        requires
            self.wf(),
            self.has(n),
            self.pos(n) > 0,
        ensures
            r.idx == self.nodes()[self.pos(n) - 1],
    {
        self.prev_link(n).unwrap()
    }

    /// Checks that the neighbours of `n` link back to it.
    pub fn assert_links(&self, n: DListNode) -> (ok: bool)
        requires
            self.wf(),
            self.has(n),
        ensures
            ok,
    {
        proof {
            self.lemma_nodes();
        }
        let mut ok = true;
        match self.slots[n.idx].next {
            Some(nb) => match self.slots[nb].prev {
                Some(me) => {
                    if me != n.idx {
                        ok = false;
                    }
                },
                None => {
                    ok = false;
                },
            },
            None => {},
        }
        match self.slots[n.idx].prev {
            Some(nb) => match self.slots[nb].next {
                Some(me) => {
                    if me != n.idx {
                        ok = false;
                    }
                },
                None => {
                    ok = false;
                },
            },
            None => {},
        }
        ok
    }

    /// Checks the integrity of the list: walking forwards from the head and
    /// backwards from the tail meets every node once, each on this list and
    /// linked both ways, as many as the list's size. O(n).
    pub fn assert_consistent(&self) -> (ok: bool)
        requires
            self.wf(),
        ensures
            ok,
    {
        proof {
            self.lemma_nodes();
        }
        let ghost o = self.order@;
        let mut ok = true;
        if self.hd.is_none() || self.tl.is_none() {
            ok = self.hd.is_none() && self.tl.is_none();
        }
        let mut count: usize = 0;
        let mut link = self.hd;
        while link.is_some()
            invariant
                self.wf(),
                o == self.order@,
                ok,
                count <= o.len(),
                link == if count == o.len() { None } else { Some(o[count as int]) },
            decreases o.len() - count,
        {
            let i = link.unwrap();
            if !self.slots[i].linked || !self.assert_links(DListNode { idx: i }) {
                ok = false;
            }
            link = self.slots[i].next;
            count += 1;
        }
        if count != self.size {
            ok = false;
        }
        link = self.tl;
        while link.is_some()
            invariant
                self.wf(),
                o == self.order@,
                ok,
                count <= o.len(),
                link == if count == 0 { None } else { Some(o[count - 1]) },
            decreases count,
        {
            let i = link.unwrap();
            if !self.slots[i].linked || !self.assert_links(DListNode { idx: i }) {
                ok = false;
            }
            link = self.slots[i].prev;
            count -= 1;
        }
        ok && count == 0
    }
}

impl<T: Copy> DList<T> {
    /// Removes the data at the head and returns it. O(1).
    pub fn pop(&mut self) -> (d: Option<T>)
        requires
            old(self).wf(),
        ensures
            final(self).wf(),
            old(self)@.len() == 0 ==> d is None && final(self)@ == old(self)@,
            old(self)@.len() > 0 ==> d == Some(old(self)@[0]) && final(self)@ == old(self)@.drop_first()
                && final(self).nodes() == old(self).nodes().drop_first(),
    {
        match self.pop_n() {
            Some(n) => Some(*self.data(n)),
            None => None,
        }
    }

    /// Removes the data at the tail and returns it. O(1).
    pub fn pop_tail(&mut self) -> (d: Option<T>)
        requires
            old(self).wf(),
        ensures
            final(self).wf(),
            old(self)@.len() == 0 ==> d is None && final(self)@ == old(self)@,
            old(self)@.len() > 0 ==> d == Some(old(self)@[old(self)@.len() - 1]) && final(self)@
                == old(self)@.drop_last() && final(self).nodes() == old(self).nodes().drop_last(),
    {
        match self.pop_tail_n() {
            Some(n) => Some(*self.data(n)),
            None => None,
        }
    }

    /// The data at the head, if any. O(1).
    pub fn peek(&self) -> (d: Option<T>)
        requires
            self.wf(),
        ensures
            d == if self@.len() == 0 { None } else { Some(self@[0]) },
    {
        proof {
            self.lemma_nodes();
        }
        match self.peek_n() {
            Some(n) => Some(*self.data(n)),
            None => None,
        }
    }

    /// The data at the tail, if any. O(1).
    pub fn peek_tail(&self) -> (d: Option<T>)
        requires
            self.wf(),
        ensures
            d == if self@.len() == 0 { None } else { Some(self@[self@.len() - 1]) },
    {
        proof {
            self.lemma_nodes();
        }
        match self.peek_tail_n() {
            Some(n) => Some(*self.data(n)),
            None => None,
        }
    }

    /// The data at the head; the list must not be empty. O(1).
    pub fn head(&self) -> (d: T)
        requires
            self.wf(),
            self@.len() > 0,
        ensures
            d == self@[0],
    {
        proof {
            self.lemma_nodes();
        }
        *self.data(self.head_n())
    }

    /// The data at the tail; the list must not be empty. O(1).
    pub fn tail(&self) -> (d: T)
        requires
            self.wf(),
            self@.len() > 0,
        ensures
            d == self@[self@.len() - 1],
    {
        proof {
            self.lemma_nodes();
        }
        *self.data(self.tail_n())
    }
}

impl<T> View for DList<T> {
    type V = Seq<T>;

    closed spec fn view(&self) -> Seq<T> {
        self.order@.map_values(|i: usize| self.slots@[i as int].data)
    }
}

} // verus!
