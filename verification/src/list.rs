use vstd::prelude::*;

verus! {

/// A stable, copyable handle to a list node: an index into the slot arena.
///
/// Two handles are equal iff their underlying indices are equal. A handle does
/// not own its slot; after the node it was issued for is removed, it refers to
/// whatever occupant (if any) the arena later places in that slot.
#[derive(Copy, Clone, Debug, PartialEq, Eq, Structural)]
pub struct NodeId(pub(crate) usize);

/// A stored payload together with its two optional neighbor references.
///
/// `next` is the handle of the successor (absent at the tail) and `prev` the
/// handle of the predecessor (absent at the head). The view of a node is its
/// payload.
#[derive(Copy, Clone)]
pub struct Node<T> {
    pub(crate) item: T,
    pub(crate) next: Option<usize>,
    pub(crate) prev: Option<usize>,
}

impl<T> View for Node<T> {
    type V = T;

    closed spec fn view(&self) -> T {
        self.item
    }
}

impl<T> Node<T> {
    /// The successor handle this node held, as a spec value.
    pub closed spec fn spec_next(&self) -> Option<NodeId> {
        match self.next {
            Some(ix) => Some(NodeId(ix)),
            None => None,
        }
    }

    /// The predecessor handle this node held, as a spec value.
    pub closed spec fn spec_prev(&self) -> Option<NodeId> {
        match self.prev {
            Some(ix) => Some(NodeId(ix)),
            None => None,
        }
    }

    /// Consumes the node and returns its payload.
    pub fn into_inner(self) -> (r: T)
        ensures
            r == self@,
    {
        self.item
    }

    /// Reads the payload through an explicit accessor.
    pub fn item(&self) -> (r: &T)
        ensures
            *r == self@,
    {
        &self.item
    }

    /// Mutable access to the payload of an owned node; the links are
    /// unaffected.
    pub fn item_mut(&mut self) -> (r: &mut T)
        ensures
            *r == old(self)@,
            final(self)@ == *final(r),
            final(self).spec_next() == old(self).spec_next(),
            final(self).spec_prev() == old(self).spec_prev(),
    {
        &mut self.item
    }

    /// The handle of this node's successor, absent if it was the tail.
    pub fn next(&self) -> (r: Option<NodeId>)
        ensures
            r == self.spec_next(),
    {
        match self.next {
            Some(ix) => Some(NodeId(ix)),
            None => None,
        }
    }

    /// The handle of this node's predecessor, absent if it was the head.
    pub fn prev(&self) -> (r: Option<NodeId>)
        ensures
            r == self.spec_prev(),
    {
        match self.prev {
            Some(ix) => Some(NodeId(ix)),
            None => None,
        }
    }
}

/// A doubly-linked list stored in a growable arena of reusable slots.
///
/// The view `self@` is the sequence of payloads in traversal order, and
/// `self.handles()` is the sequence of their handles in the same order.
/// All operations keep the well-formedness predicate [`List::wf`].
#[derive(Clone)]
pub struct List<T> {
    slots: Vec<Option<Node<T>>>,
    free: Vec<usize>,
    head: Option<usize>,
    tail: Option<usize>,
    ord: Ghost<Seq<usize>>,
}

impl<T> View for List<T> {
    type V = Seq<T>;

    closed spec fn view(&self) -> Seq<T> {
        Seq::new(self.ord@.len(), |i: int| self.slots@[self.ord@[i] as int]->0.item)
    }
}

impl<T> List<T> {
    /// The handles of the occupied slots, in traversal order (head first).
    pub closed spec fn handles(&self) -> Seq<NodeId> {
        Seq::new(self.ord@.len(), |i: int| NodeId(self.ord@[i]))
    }

    /// True iff `id` names a currently occupied slot.
    pub open spec fn valid(&self, id: NodeId) -> bool {
        self.handles().contains(id)
    }

    /// The handle of the first node, absent iff the list is empty.
    pub open spec fn head_handle(&self) -> Option<NodeId> {
        if self.handles().len() == 0 {
            None
        } else {
            Some(self.handles()[0])
        }
    }

    /// The handle of the last node, absent iff the list is empty.
    pub open spec fn tail_handle(&self) -> Option<NodeId> {
        if self.handles().len() == 0 {
            None
        } else {
            Some(self.handles()[self.handles().len() - 1])
        }
    }

    /// The successor link stored in `id`'s slot, absent for a vacant slot.
    pub closed spec fn next_of(&self, id: NodeId) -> Option<NodeId> {
        if id.0 < self.slots@.len() && self.slots@[id.0 as int] is Some {
            self.slots@[id.0 as int]->0.spec_next()
        } else {
            None
        }
    }

    /// The predecessor link stored in `id`'s slot, absent for a vacant slot.
    pub closed spec fn prev_of(&self, id: NodeId) -> Option<NodeId> {
        if id.0 < self.slots@.len() && self.slots@[id.0 as int] is Some {
            self.slots@[id.0 as int]->0.spec_prev()
        } else {
            None
        }
    }

    /// The doubly-linked invariant, true between all calls:
    /// the recorded traversal order names pairwise distinct occupied slots,
    /// links agree with adjacency in that order, `head`/`tail` name its ends,
    /// every occupied slot appears in it, and the free stack names pairwise
    /// distinct vacant slots.
    pub closed spec fn wf(&self) -> bool {
        let ord = self.ord@;
        let slots = self.slots@;
        let free = self.free@;
        &&& forall|i: int|
            0 <= i < ord.len() ==> (#[trigger] ord[i]) < slots.len() && slots[ord[i] as int] is Some
        &&& ord.no_duplicates()
        &&& forall|i: int|
            0 <= i < ord.len() ==> (#[trigger] slots[ord[i] as int])->0.prev == (if i == 0 {
                None::<usize>
            } else {
                Some(ord[i - 1])
            })
        &&& forall|i: int|
            0 <= i < ord.len() ==> (#[trigger] slots[ord[i] as int])->0.next == (if i == ord.len()
                - 1 {
                None::<usize>
            } else {
                Some(ord[i + 1])
            })
        &&& self.head == (if ord.len() == 0 {
            None::<usize>
        } else {
            Some(ord[0])
        })
        &&& self.tail == (if ord.len() == 0 {
            None::<usize>
        } else {
            Some(ord[ord.len() - 1])
        })
        &&& forall|j: usize|
            j < slots.len() && (#[trigger] slots[j as int]) is Some ==> ord.contains(j)
        &&& forall|i: int|
            0 <= i < free.len() ==> (#[trigger] free[i]) < slots.len() && slots[free[i] as int] is None
        &&& free.no_duplicates()
    }

    /// Creates an empty list.
    pub fn new() -> (r: Self)
        ensures
            r.wf(),
            r@ == Seq::<T>::empty(),
            r.handles() == Seq::<NodeId>::empty(),
    {
        let r = List { slots: Vec::new(), free: Vec::new(), head: None, tail: None, ord: Ghost(Seq::empty()) };
        proof {
            assert(r@ =~= Seq::<T>::empty());
            assert(r.handles() =~= Seq::<NodeId>::empty());
        }
        r
    }

    /// Creates an empty list whose arena has room for `cap` nodes before it
    /// must grow.
    pub fn with_capacity(cap: usize) -> (r: Self)
        ensures
            r.wf(),
            r@ == Seq::<T>::empty(),
            r.handles() == Seq::<NodeId>::empty(),
    {
        let r = List {
            slots: Vec::with_capacity(cap),
            free: Vec::new(),
            head: None,
            tail: None,
            ord: Ghost(Seq::empty()),
        };
        proof {
            assert(r@ =~= Seq::<T>::empty());
            assert(r.handles() =~= Seq::<NodeId>::empty());
        }
        r
    }

    /// Inserts `value` at the front and returns the handle of its slot, fresh
    /// among the currently occupied handles. All earlier handles stay valid
    /// and keep their relative order.
    pub fn push_front(&mut self, value: T) -> (id: NodeId)
        requires
            old(self).wf(),
        ensures
            final(self).wf(),
            !old(self).valid(id),
            final(self).valid(id),
            final(self).head_handle() == Some(id),
            final(self).handles() == seq![id] + old(self).handles(),
            final(self)@ == seq![value] + old(self)@,
    {
        let ghost pre = *old(self);
        let next0 = self.head;
        let key: usize = match self.free.pop() {
            Some(k) => {
                proof {
                    assert(pre.free@.len() > 0 && k == pre.free@[pre.free@.len() - 1]);
                    assert(k < pre.slots@.len() && pre.slots@[k as int] is None);
                }
                let slot = &mut self.slots[k];
                *slot = Some(Node { item: value, next: next0, prev: None });
                k
            },
            None => {
                let k = self.slots.len();
                self.slots.push(Some(Node { item: value, next: next0, prev: None }));
                k
            },
        };
        proof {
            assert forall|i: int| 0 <= i < pre.ord@.len() implies #[trigger] pre.ord@[i]
                != key by {
                assert(pre.slots@[pre.ord@[i] as int] is Some);
            }
            assert(!pre.ord@.contains(key));
            assert forall|i: int| 0 <= i < self.free@.len() implies #[trigger] self.free@[i]
                != key by {
                assert(self.free@[i] == pre.free@[i]);
                if key < pre.slots@.len() {
                    assert(pre.free@[i] != pre.free@[pre.free@.len() - 1]);
                } else {
                    assert(pre.free@[i] < pre.slots@.len());
                }
            }
            assert(!self.free@.contains(key));
            assert(self.slots@[key as int] == Some(
                Node { item: value, next: pre.head, prev: None::<usize> },
            ));
        }
        match next0 {
            Some(h) => {
                proof {
                    assert(pre.ord@.len() > 0 && h == pre.ord@[0]);
                    assert(h < self.slots.len() && h != key);
                }
                let slot = &mut self.slots[h];
                match slot {
                    Some(node) => {
                        node.prev = Some(key);
                    },
                    None => {},
                }
            },
            None => {
                self.tail = Some(key);
            },
        }
        self.head = Some(key);
        self.ord = Ghost(seq![key] + self.ord@);
        proof {
            lemma_push_front_wf(pre, *self, value, key);
            assert(self.handles() =~= seq![NodeId(key)] + pre.handles());
            assert(self@ =~= seq![value] + pre@);
        }
        NodeId(key)
    }

    /// Inserts `value` at the back and returns the handle of its slot, fresh
    /// among the currently occupied handles. All earlier handles stay valid
    /// and keep their relative order.
    pub fn push_back(&mut self, value: T) -> (id: NodeId)
        requires
            old(self).wf(),
        ensures
            final(self).wf(),
            !old(self).valid(id),
            final(self).valid(id),
            final(self).tail_handle() == Some(id),
            final(self).handles() == old(self).handles().push(id),
            final(self)@ == old(self)@.push(value),
    {
        let ghost pre = *old(self);
        let prev0 = self.tail;
        let key: usize = match self.free.pop() {
            Some(k) => {
                proof {
                    assert(pre.free@.len() > 0 && k == pre.free@[pre.free@.len() - 1]);
                    assert(k < pre.slots@.len() && pre.slots@[k as int] is None);
                }
                let slot = &mut self.slots[k];
                *slot = Some(Node { item: value, next: None, prev: prev0 });
                k
            },
            None => {
                let k = self.slots.len();
                self.slots.push(Some(Node { item: value, next: None, prev: prev0 }));
                k
            },
        };
        proof {
            assert forall|i: int| 0 <= i < pre.ord@.len() implies #[trigger] pre.ord@[i]
                != key by {
                assert(pre.slots@[pre.ord@[i] as int] is Some);
            }
            assert(!pre.ord@.contains(key));
            assert forall|i: int| 0 <= i < self.free@.len() implies #[trigger] self.free@[i]
                != key by {
                assert(self.free@[i] == pre.free@[i]);
                if key < pre.slots@.len() {
                    assert(pre.free@[i] != pre.free@[pre.free@.len() - 1]);
                } else {
                    assert(pre.free@[i] < pre.slots@.len());
                }
            }
            assert(!self.free@.contains(key));
            assert(self.slots@[key as int] == Some(
                Node { item: value, next: None::<usize>, prev: pre.tail },
            ));
        }
        match prev0 {
            Some(h) => {
                proof {
                    assert(pre.ord@.len() > 0 && h == pre.ord@[pre.ord@.len() - 1]);
                    assert(h < self.slots.len() && h != key);
                }
                let slot = &mut self.slots[h];
                match slot {
                    Some(node) => {
                        node.next = Some(key);
                    },
                    None => {},
                }
            },
            None => {
                self.head = Some(key);
            },
        }
        self.tail = Some(key);
        self.ord = Ghost(self.ord@.push(key));
        proof {
            lemma_push_back_wf(pre, *self, value, key);
            assert(self.handles() =~= pre.handles().push(NodeId(key)));
            assert(self@ =~= pre@.push(value));
        }
        NodeId(key)
    }

    /// True iff `id` names a currently occupied slot.
    pub fn contains(&self, id: NodeId) -> (r: bool)
        requires
            self.wf(),
        ensures
            r == self.valid(id),
    {
        let r = id.0 < self.slots.len() && self.slots[id.0].is_some();
        proof {
            if r {
                assert(self.ord@.contains(id.0));
                let i = choose|i: int| 0 <= i < self.ord@.len() && self.ord@[i] == id.0;
                assert(self.handles()[i] == id);
            } else if self.valid(id) {
                let i = choose|i: int|
                    0 <= i < self.handles().len() && self.handles()[i] == id;
                assert(self.ord@[i] == id.0);
                assert(self.slots@[id.0 as int] is Some);
            }
        }
        r
    }

    /// Removes the node named by `id`. Returns absent, leaving the list
    /// unchanged, if `id` does not name a currently occupied slot; otherwise
    /// unlinks the node, vacates its slot for reuse, and returns the node
    /// (payload plus the neighbor links it held just before removal). All
    /// other handles stay valid and keep their relative order.
    #[verifier::rlimit(100)]
    pub fn remove(&mut self, id: NodeId) -> (r: Option<Node<T>>)
        requires
            old(self).wf(),
        ensures
            final(self).wf(),
            r is Some <==> old(self).valid(id),
            !old(self).valid(id) ==> *final(self) == *old(self),
            forall|i: int|
                0 <= i < old(self).handles().len() && (#[trigger] old(self).handles()[i])
                    == id ==> {
                    &&& r is Some
                    &&& r->0@ == old(self)@[i]
                    &&& r->0.spec_prev() == (if i == 0 {
                        None::<NodeId>
                    } else {
                        Some(old(self).handles()[i - 1])
                    })
                    &&& r->0.spec_next() == (if i == old(self).handles().len() - 1 {
                        None::<NodeId>
                    } else {
                        Some(old(self).handles()[i + 1])
                    })
                    &&& final(self).handles() == old(self).handles().remove(i)
                    &&& final(self)@ == old(self)@.remove(i)
                },
    {
        let ghost pre = *old(self);
        if !self.contains(id) {
            return None;
        }
        let ix: usize = id.0;
        proof {
            let q = choose|i: int| 0 <= i < pre.handles().len() && pre.handles()[i] == id;
            assert(pre.ord@[q] == ix);
            assert(pre.ord@.contains(ix));
        }
        let ghost p = choose|i: int| 0 <= i < pre.ord@.len() && pre.ord@[i] == ix;
        proof {
            assert(0 <= p < pre.ord@.len() && pre.ord@[p] == ix);
            assert(pre.slots@[ix as int] is Some);
        }
        let slot = &mut self.slots[ix];
        let node_opt = slot.take();
        let node = match node_opt {
            Some(n) => n,
            None => vstd::pervasive::unreached(),
        };
        proof {
            assert(node == pre.slots@[ix as int]->0);
            assert(node.prev == (if p == 0 {
                None::<usize>
            } else {
                Some(pre.ord@[p - 1])
            }));
            assert(node.next == (if p == pre.ord@.len() - 1 {
                None::<usize>
            } else {
                Some(pre.ord@[p + 1])
            }));
        }
        match node.prev {
            Some(pv) => {
                proof {
                    assert(p > 0 && pv == pre.ord@[p - 1]);
                    assert(pv < pre.slots@.len() && pre.slots@[pv as int] is Some);
                    assert(pv != ix);
                }
                let slot2 = &mut self.slots[pv];
                match slot2 {
                    Some(pn) => {
                        pn.next = node.next;
                    },
                    None => {},
                }
            },
            None => {
                self.head = node.next;
            },
        }
        match node.next {
            Some(nx) => {
                proof {
                    assert(p < pre.ord@.len() - 1 && nx == pre.ord@[p + 1]);
                    assert(nx < pre.slots@.len() && pre.slots@[nx as int] is Some);
                    assert(nx != ix);
                    assert(p > 0 ==> nx != pre.ord@[p - 1]);
                }
                let slot3 = &mut self.slots[nx];
                match slot3 {
                    Some(nn) => {
                        nn.prev = node.prev;
                    },
                    None => {},
                }
            },
            None => {
                self.tail = node.prev;
            },
        }
        self.free.push(ix);
        self.ord = Ghost(self.ord@.remove(p));
        proof {
            lemma_remove_wf(pre, *self, ix, p);
            lemma_remove_model(pre, *self, ix, p);
            assert forall|i: int|
                0 <= i < pre.handles().len() && pre.handles()[i] == id implies i == p by {
                assert(pre.ord@[i] == id.0);
            }
        }
        Some(node)
    }

    /// The handle of the first node, absent iff the list is empty.
    pub fn init(&self) -> (r: Option<NodeId>)
        requires
            self.wf(),
        ensures
            r == self.head_handle(),
    {
        match self.head {
            Some(ix) => Some(NodeId(ix)),
            None => None,
        }
    }

    /// The handle of the last node, absent iff the list is empty.
    pub fn last(&self) -> (r: Option<NodeId>)
        requires
            self.wf(),
        ensures
            r == self.tail_handle(),
    {
        match self.tail {
            Some(ix) => Some(NodeId(ix)),
            None => None,
        }
    }

    /// Removes and returns the first node, absent if the list is empty.
    pub fn pop_front(&mut self) -> (r: Option<Node<T>>)
        requires
            old(self).wf(),
        ensures
            final(self).wf(),
            old(self)@.len() == 0 ==> r is None && *final(self) == *old(self),
            old(self)@.len() > 0 ==> {
                &&& r is Some
                &&& r->0@ == old(self)@[0]
                &&& r->0.spec_prev() is None
                &&& r->0.spec_next() == (if old(self).handles().len() == 1 {
                    None::<NodeId>
                } else {
                    Some(old(self).handles()[1])
                })
                &&& final(self)@ == old(self)@.drop_first()
                &&& final(self).handles() == old(self).handles().drop_first()
            },
    {
        let ghost pre = *old(self);
        match self.init() {
            Some(id) => {
                proof {
                    assert(pre.handles()[0] == id);
                    assert(pre.valid(id));
                }
                let r = self.remove(id);
                proof {
                    assert(pre@.remove(0) =~= pre@.drop_first());
                    assert(pre.handles().remove(0) =~= pre.handles().drop_first());
                }
                r
            },
            None => None,
        }
    }

    /// Removes and returns the last node, absent if the list is empty.
    pub fn pop_back(&mut self) -> (r: Option<Node<T>>)
        requires
            old(self).wf(),
        ensures
            final(self).wf(),
            old(self)@.len() == 0 ==> r is None && *final(self) == *old(self),
            old(self)@.len() > 0 ==> {
                &&& r is Some
                &&& r->0@ == old(self)@.last()
                &&& r->0.spec_next() is None
                &&& r->0.spec_prev() == (if old(self).handles().len() == 1 {
                    None::<NodeId>
                } else {
                    Some(old(self).handles()[old(self).handles().len() - 2])
                })
                &&& final(self)@ == old(self)@.drop_last()
                &&& final(self).handles() == old(self).handles().drop_last()
            },
    {
        let ghost pre = *old(self);
        match self.last() {
            Some(id) => {
                proof {
                    assert(pre.handles()[pre.handles().len() - 1] == id);
                    assert(pre.valid(id));
                }
                let r = self.remove(id);
                proof {
                    let n = pre.handles().len() as int;
                    assert(pre@.remove(n - 1) =~= pre@.drop_last());
                    assert(pre.handles().remove(n - 1) =~= pre.handles().drop_last());
                }
                r
            },
            None => None,
        }
    }

    /// Reads the node named by `id` without traversal: its payload and the
    /// handles of its neighbors. Absent if `id` does not name a currently
    /// occupied slot.
    pub fn get(&self, id: NodeId) -> (r: Option<&Node<T>>)
        requires
            self.wf(),
        ensures
            r is Some <==> self.valid(id),
            r is Some ==> r->0.spec_next() == self.next_of(id) && r->0.spec_prev()
                == self.prev_of(id),
            forall|i: int|
                0 <= i < self.handles().len() && (#[trigger] self.handles()[i]) == id ==> {
                    &&& r is Some
                    &&& r->0@ == self@[i]
                    &&& r->0.spec_prev() == (if i == 0 {
                        None::<NodeId>
                    } else {
                        Some(self.handles()[i - 1])
                    })
                    &&& r->0.spec_next() == (if i == self.handles().len() - 1 {
                        None::<NodeId>
                    } else {
                        Some(self.handles()[i + 1])
                    })
                },
    {
        if id.0 >= self.slots.len() {
            proof {
                if self.valid(id) {
                    let i = choose|i: int|
                        0 <= i < self.handles().len() && self.handles()[i] == id;
                    assert(self.ord@[i] == id.0);
                }
            }
            return None;
        }
        let slot = &self.slots[id.0];
        let r = match slot {
            Some(n) => Some(n),
            None => None,
        };
        proof {
            if self.slots@[id.0 as int] is Some {
                assert(self.ord@.contains(id.0));
                let i = choose|i: int| 0 <= i < self.ord@.len() && self.ord@[i] == id.0;
                assert(self.handles()[i] == id);
            } else if self.valid(id) {
                let i = choose|i: int| 0 <= i < self.handles().len() && self.handles()[i] == id;
                assert(self.ord@[i] == id.0);
            }
            assert forall|i: int|
                0 <= i < self.handles().len() && self.handles()[i] == id implies {
                &&& r is Some
                &&& r->0@ == self@[i]
                &&& r->0.spec_prev() == (if i == 0 {
                    None::<NodeId>
                } else {
                    Some(self.handles()[i - 1])
                })
                &&& r->0.spec_next() == (if i == self.handles().len() - 1 {
                    None::<NodeId>
                } else {
                    Some(self.handles()[i + 1])
                })
            } by {
                assert(self.ord@[i] == id.0);
                assert(self.slots@[self.ord@[i] as int] is Some);
            }
        }
        r
    }

    /// Mutable access to the payload of the node named by `id`, without
    /// traversal. Absent, leaving the list unchanged, if `id` does not name a
    /// currently occupied slot. The links and all handles are unaffected.
    pub fn get_mut(&mut self, id: NodeId) -> (r: Option<&mut T>)
        requires
            old(self).wf(),
        ensures
            final(self).wf(),
            r is Some <==> old(self).valid(id),
            final(self).handles() == old(self).handles(),
            r is None ==> *final(self) == *old(self),
            forall|i: int|
                0 <= i < old(self).handles().len() && (#[trigger] old(self).handles()[i])
                    == id ==> {
                    &&& r is Some
                    &&& *r->0 == old(self)@[i]
                    &&& final(self)@ == old(self)@.update(i, *final(r->0))
                },
    {
        let ghost pre = *old(self);
        if !self.contains(id) {
            return None;
        }
        proof {
            let q = choose|i: int| 0 <= i < pre.handles().len() && pre.handles()[i] == id;
            assert(pre.ord@[q] == id.0);
            assert(pre.slots@[id.0 as int] is Some);
        }
        let slot = &mut self.slots[id.0];
        let r = match slot {
            Some(node) => Some(&mut node.item),
            None => None,
        };
        proof {
            let post = after_borrow(*self);
            lemma_update_item_wf(pre, post, id.0);
            assert forall|i: int|
                0 <= i < pre.handles().len() && pre.handles()[i] == id implies {
                &&& r is Some
                &&& *r->0 == pre@[i]
                &&& post@ == pre@.update(i, *final(r->0))
            } by {
                assert(pre.ord@[i] == id.0);
                assert(pre.slots@[pre.ord@[i] as int] is Some);
                assert forall|k: int| 0 <= k < post@.len() && k != i implies #[trigger] post@[k]
                    == pre@[k] by {
                    assert(pre.ord@[k] != pre.ord@[i]);
                }
                assert(post@ =~= pre@.update(i, *final(r->0)));
            }
        }
        r
    }

    /// Asks the arena to make room for at least `additional` more nodes.
    /// Performance advice only: the contents are unchanged.
    pub fn reserve(&mut self, additional: usize)
        requires
            old(self).wf(),
        ensures
            final(self).wf(),
            final(self)@ == old(self)@,
            final(self).handles() == old(self).handles(),
    {
        self.slots.reserve(additional);
        proof {
            assert(self@ =~= old(self)@);
            assert(self.handles() =~= old(self).handles());
        }
    }

    /// Like [`List::reserve`], but asks for the minimal extra room.
    /// Performance advice only: the contents are unchanged.
    pub fn reserve_exact(&mut self, additional: usize)
        requires
            old(self).wf(),
        ensures
            final(self).wf(),
            final(self)@ == old(self)@,
            final(self).handles() == old(self).handles(),
    {
        vec_reserve_exact(&mut self.slots, additional);
        proof {
            assert(self@ =~= old(self)@);
            assert(self.handles() =~= old(self).handles());
        }
    }
}

impl<T> Default for List<T> {
    /// Creates an empty list.
    fn default() -> (r: Self)
        ensures
            r.wf(),
            r@ == Seq::<T>::empty(),
            r.handles() == Seq::<NodeId>::empty(),
    {
        List::new()
    }
}

/// The list invariants, stated over the public model: the view and
/// the handle sequence have the same length and the handles are pairwise
/// distinct; the endpoint handles are absent exactly on the empty list; the
/// head has no predecessor and the tail no successor; the stored links agree
/// with adjacency in the handle sequence; and every link leads to a currently
/// occupied handle whose opposite link points back.
pub proof fn lemma_list_invariants<T>(l: List<T>)
    requires
        l.wf(),
    ensures
        l@.len() == l.handles().len(),
        l.handles().no_duplicates(),
        l.head_handle() is None <==> l@.len() == 0,
        l.tail_handle() is None <==> l@.len() == 0,
        l@.len() > 0 ==> l.prev_of(l.head_handle()->0) is None,
        l@.len() > 0 ==> l.next_of(l.tail_handle()->0) is None,
        forall|i: int|
            0 <= i < l.handles().len() ==> #[trigger] l.next_of(l.handles()[i]) == (if i
                == l.handles().len() - 1 {
                None::<NodeId>
            } else {
                Some(l.handles()[i + 1])
            }),
        forall|i: int|
            0 <= i < l.handles().len() ==> #[trigger] l.prev_of(l.handles()[i]) == (if i == 0 {
                None::<NodeId>
            } else {
                Some(l.handles()[i - 1])
            }),
        forall|id: NodeId|
            l.valid(id) && (#[trigger] l.next_of(id)) is Some ==> l.valid(l.next_of(id)->0)
                && l.prev_of(l.next_of(id)->0) == Some(id),
        forall|id: NodeId|
            l.valid(id) && (#[trigger] l.prev_of(id)) is Some ==> l.valid(l.prev_of(id)->0)
                && l.next_of(l.prev_of(id)->0) == Some(id),
{
    assert forall|i: int, j: int|
        0 <= i < l.handles().len() && 0 <= j < l.handles().len() && i != j
        implies l.handles()[i] != l.handles()[j] by {
        assert(l.ord@[i] != l.ord@[j]);
    }
    assert forall|i: int| 0 <= i < l.handles().len() implies #[trigger] l.next_of(l.handles()[i])
        == (if i == l.handles().len() - 1 {
        None::<NodeId>
    } else {
        Some(l.handles()[i + 1])
    }) by {
        assert(l.ord@[i] < l.slots@.len() && l.slots@[l.ord@[i] as int] is Some);
    }
    assert forall|i: int| 0 <= i < l.handles().len() implies #[trigger] l.prev_of(l.handles()[i])
        == (if i == 0 {
        None::<NodeId>
    } else {
        Some(l.handles()[i - 1])
    }) by {
        assert(l.ord@[i] < l.slots@.len() && l.slots@[l.ord@[i] as int] is Some);
    }
    assert forall|id: NodeId| l.valid(id) && (#[trigger] l.next_of(id)) is Some
        implies l.valid(l.next_of(id)->0) && l.prev_of(l.next_of(id)->0) == Some(id) by {
        let i = choose|i: int| 0 <= i < l.handles().len() && l.handles()[i] == id;
        assert(l.next_of(l.handles()[i]) == l.next_of(id));
        assert(i < l.handles().len() - 1);
        assert(l.next_of(id)->0 == l.handles()[i + 1]);
        assert(l.valid(l.handles()[i + 1]));
        assert(l.prev_of(l.handles()[i + 1]) == Some(l.handles()[i]));
    }
    assert forall|id: NodeId| l.valid(id) && (#[trigger] l.prev_of(id)) is Some
        implies l.valid(l.prev_of(id)->0) && l.next_of(l.prev_of(id)->0) == Some(id) by {
        let i = choose|i: int| 0 <= i < l.handles().len() && l.handles()[i] == id;
        assert(l.prev_of(l.handles()[i]) == l.prev_of(id));
        assert(i > 0);
        assert(l.prev_of(id)->0 == l.handles()[i - 1]);
        assert(l.valid(l.handles()[i - 1]));
        assert(l.next_of(l.handles()[i - 1]) == Some(l.handles()[i]));
    }
}

/// Relies on Vec::reserve_exact: it adjusts the capacity only and keeps the
/// contents unchanged.
#[verifier::external_body]
fn vec_reserve_exact<T>(v: &mut Vec<T>, additional: usize)
    ensures
        final(v)@ == old(v)@,
{
    v.reserve_exact(additional)
}

/// After only the payload of the occupied slot `ix` changed, the invariant
/// and the handle sequence are untouched.
proof fn lemma_update_item_wf<T>(pre: List<T>, post: List<T>, ix: usize)
    requires
        pre.wf(),
        pre.ord@.contains(ix),
        post.ord@ == pre.ord@,
        post.free@ == pre.free@,
        post.head == pre.head,
        post.tail == pre.tail,
        post.slots@.len() == pre.slots@.len(),
        post.slots@[ix as int] is Some,
        pre.slots@[ix as int] is Some,
        post.slots@[ix as int]->0.next == pre.slots@[ix as int]->0.next,
        post.slots@[ix as int]->0.prev == pre.slots@[ix as int]->0.prev,
        forall|j: int|
            0 <= j < post.slots@.len() && j != ix ==> #[trigger] post.slots@[j]
                == pre.slots@[j],
    ensures
        post.wf(),
        post.handles() == pre.handles(),
{
    assert forall|i: int| 0 <= i < post.ord@.len() implies (#[trigger] post.ord@[i])
        < post.slots@.len() && post.slots@[post.ord@[i] as int] is Some
        && post.slots@[post.ord@[i] as int]->0.prev == pre.slots@[pre.ord@[i] as int]->0.prev
        && post.slots@[post.ord@[i] as int]->0.next == pre.slots@[pre.ord@[i] as int]->0.next by {
        if pre.ord@[i] != ix {
            assert(post.slots@[pre.ord@[i] as int] == pre.slots@[pre.ord@[i] as int]);
        }
    }
    assert forall|j: usize| j < post.slots@.len() && (#[trigger] post.slots@[j as int]) is Some
        implies post.ord@.contains(j) by {
        if j != ix {
            assert(post.slots@[j as int] == pre.slots@[j as int]);
        }
    }
    assert forall|i: int| 0 <= i < post.free@.len() implies (#[trigger] post.free@[i])
        < post.slots@.len() && post.slots@[post.free@[i] as int] is None by {
        assert(pre.slots@[pre.free@[i] as int] is None);
        assert(pre.free@[i] != ix);
        assert(post.slots@[post.free@[i] as int] == pre.slots@[pre.free@[i] as int]);
    }
    assert(post.handles() =~= pre.handles());
}

/// After `remove` vacated slot `ix`, which held the node at position `p` of
/// the traversal order: the handle and payload sequences lose exactly the
/// entry at `p`.
proof fn lemma_remove_model<T>(pre: List<T>, post: List<T>, ix: usize, p: int)
    requires
        pre.wf(),
        0 <= p < pre.ord@.len(),
        pre.ord@[p] == ix,
        post.ord@ == pre.ord@.remove(p),
        post.slots@.len() == pre.slots@.len(),
        p > 0 ==> post.slots@[pre.ord@[p - 1] as int] == Some(
            Node {
                item: pre.slots@[pre.ord@[p - 1] as int]->0.item,
                next: pre.slots@[ix as int]->0.next,
                prev: pre.slots@[pre.ord@[p - 1] as int]->0.prev,
            },
        ),
        p < pre.ord@.len() - 1 ==> post.slots@[pre.ord@[p + 1] as int] == Some(
            Node {
                item: pre.slots@[pre.ord@[p + 1] as int]->0.item,
                next: pre.slots@[pre.ord@[p + 1] as int]->0.next,
                prev: pre.slots@[ix as int]->0.prev,
            },
        ),
        forall|j: int|
            0 <= j < post.slots@.len() && j != ix && (p == 0 || j != pre.ord@[p - 1]) && (p
                == pre.ord@.len() - 1 || j != pre.ord@[p + 1]) ==> #[trigger] post.slots@[j]
                == pre.slots@[j],
    ensures
        post.handles() == pre.handles().remove(p),
        post@ == pre@.remove(p),
{
    let n = pre.ord@.len();
    pre.ord@.remove_ensures(p);
    pre.handles().remove_ensures(p);
    pre@.remove_ensures(p);
    assert forall|i: int| 0 <= i < post.ord@.len() implies #[trigger] post.handles()[i]
        == pre.handles().remove(p)[i] by {
        let i0 = if i < p { i } else { i + 1 };
        assert(post.ord@[i] == pre.ord@[i0]);
        assert(pre.handles()[i0] == NodeId(pre.ord@[i0]));
    }
    assert(post.handles() =~= pre.handles().remove(p));
    assert forall|i: int| 0 <= i < post.ord@.len() implies #[trigger] post@[i]
        == pre@.remove(p)[i] by {
        let i0 = if i < p { i } else { i + 1 };
        assert(post.ord@[i] == pre.ord@[i0]);
        let j = pre.ord@[i0] as int;
        assert(pre.ord@[i0] != pre.ord@[p]);
        if p > 0 && i0 == p - 1 {
            assert(post.slots@[j]->0.item == pre.slots@[j]->0.item);
        } else if p < n - 1 && i0 == p + 1 {
            assert(post.slots@[j]->0.item == pre.slots@[j]->0.item);
        } else {
            assert(p > 0 ==> pre.ord@[i0] != pre.ord@[p - 1]);
            assert(p < n - 1 ==> pre.ord@[i0] != pre.ord@[p + 1]);
            assert(post.slots@[j] == pre.slots@[j]);
        }
        assert(pre@[i0] == pre.slots@[j]->0.item);
    }
    assert(post@ =~= pre@.remove(p));
}

/// The shape of the state after `remove` vacated slot `ix`, which held the
/// node at position `p` of the traversal order: everything needed to
/// re-establish the invariant.
#[verifier::rlimit(100)]
proof fn lemma_remove_wf<T>(pre: List<T>, post: List<T>, ix: usize, p: int)
    requires
        pre.wf(),
        0 <= p < pre.ord@.len(),
        pre.ord@[p] == ix,
        post.ord@ == pre.ord@.remove(p),
        post.slots@.len() == pre.slots@.len(),
        post.slots@[ix as int] is None,
        p > 0 ==> post.slots@[pre.ord@[p - 1] as int] == Some(
            Node {
                item: pre.slots@[pre.ord@[p - 1] as int]->0.item,
                next: pre.slots@[ix as int]->0.next,
                prev: pre.slots@[pre.ord@[p - 1] as int]->0.prev,
            },
        ),
        p < pre.ord@.len() - 1 ==> post.slots@[pre.ord@[p + 1] as int] == Some(
            Node {
                item: pre.slots@[pre.ord@[p + 1] as int]->0.item,
                next: pre.slots@[pre.ord@[p + 1] as int]->0.next,
                prev: pre.slots@[ix as int]->0.prev,
            },
        ),
        forall|j: int|
            0 <= j < post.slots@.len() && j != ix && (p == 0 || j != pre.ord@[p - 1]) && (p
                == pre.ord@.len() - 1 || j != pre.ord@[p + 1]) ==> #[trigger] post.slots@[j]
                == pre.slots@[j],
        post.head == (if p == 0 {
            pre.slots@[ix as int]->0.next
        } else {
            pre.head
        }),
        post.tail == (if p == pre.ord@.len() - 1 {
            pre.slots@[ix as int]->0.prev
        } else {
            pre.tail
        }),
        post.free@ == pre.free@.push(ix),
    ensures
        post.wf(),
{
    let ord = post.ord@;
    let n = pre.ord@.len();
    pre.ord@.remove_ensures(p);
    assert forall|i: int, j: int|
        0 <= i < ord.len() && 0 <= j < ord.len() && i != j implies ord[i] != ord[j] by {
        let i0 = if i < p { i } else { i + 1 };
        let j0 = if j < p { j } else { j + 1 };
        assert(ord[i] == pre.ord@[i0] && ord[j] == pre.ord@[j0]);
    }
    assert(ord.no_duplicates());
    assert forall|i: int| 0 <= i < ord.len() implies (#[trigger] ord[i]) < post.slots@.len()
        && post.slots@[ord[i] as int] is Some by {
        let i0 = if i < p { i } else { i + 1 };
        assert(ord[i] == pre.ord@[i0]);
        assert(pre.ord@[i0] != ix);
        if p > 0 && ord[i] == pre.ord@[p - 1] {
        } else if p < n - 1 && ord[i] == pre.ord@[p + 1] {
        } else {
            assert(post.slots@[ord[i] as int] == pre.slots@[ord[i] as int]);
        }
    }
    assert forall|i: int| 0 <= i < ord.len() implies (#[trigger] post.slots@[ord[i] as int])->0.prev
        == (if i == 0 {
        None::<usize>
    } else {
        Some(ord[i - 1])
    }) by {
        let i0 = if i < p { i } else { i + 1 };
        let j = ord[i] as int;
        assert(j == pre.ord@[i0]);
        if i0 == p + 1 {
            assert(post.slots@[j]->0.prev == pre.slots@[ix as int]->0.prev);
        } else {
            assert(pre.ord@[i0] != ix);
            if p > 0 && i0 == p - 1 {
                assert(post.slots@[j]->0.prev == pre.slots@[j]->0.prev);
            } else {
                assert(i0 != p - 1 && i0 != p && i0 != p + 1);
                assert(p > 0 ==> pre.ord@[i0] != pre.ord@[p - 1]);
                assert(p < n - 1 ==> pre.ord@[i0] != pre.ord@[p + 1]);
                assert(post.slots@[j] == pre.slots@[j]);
            }
            if i > 0 {
                let i1 = if i - 1 < p { i - 1 } else { i };
                assert(ord[i - 1] == pre.ord@[i1]);
            }
        }
    }
    assert forall|i: int| 0 <= i < ord.len() implies (#[trigger] post.slots@[ord[i] as int])->0.next
        == (if i == ord.len() - 1 {
        None::<usize>
    } else {
        Some(ord[i + 1])
    }) by {
        let i0 = if i < p { i } else { i + 1 };
        let j = ord[i] as int;
        assert(j == pre.ord@[i0]);
        if i0 == p - 1 {
            assert(post.slots@[j]->0.next == pre.slots@[ix as int]->0.next);
        } else {
            assert(pre.ord@[i0] != ix);
            if p < n - 1 && i0 == p + 1 {
                assert(post.slots@[j]->0.next == pre.slots@[j]->0.next);
            } else {
                assert(i0 != p - 1 && i0 != p && i0 != p + 1);
                assert(p > 0 ==> pre.ord@[i0] != pre.ord@[p - 1]);
                assert(p < n - 1 ==> pre.ord@[i0] != pre.ord@[p + 1]);
                assert(post.slots@[j] == pre.slots@[j]);
            }
            if i < ord.len() - 1 {
                let i1 = if i + 1 < p { i + 1 } else { i + 2 };
                assert(ord[i + 1] == pre.ord@[i1]);
            }
        }
    }
    assert forall|j: usize| j < post.slots@.len() && (#[trigger] post.slots@[j as int]) is Some
        implies ord.contains(j) by {
        assert(j != ix);
        if p > 0 && j == pre.ord@[p - 1] {
            assert(ord[p - 1] == pre.ord@[p - 1]);
        } else if p < n - 1 && j == pre.ord@[p + 1] {
            assert(ord[p] == pre.ord@[p + 1]);
        } else {
            assert(post.slots@[j as int] == pre.slots@[j as int]);
            assert(pre.ord@.contains(j));
            let k = choose|k: int| 0 <= k < pre.ord@.len() && pre.ord@[k] == j;
            assert(pre.ord@[k] == j && pre.ord@[p] == ix);
            assert(k != p);
            let k1 = if k < p { k } else { k - 1 };
            assert(ord[k1] == pre.ord@[k]);
        }
    }
    assert forall|i: int| 0 <= i < post.free@.len() implies (#[trigger] post.free@[i])
        < post.slots@.len() && post.slots@[post.free@[i] as int] is None by {
        if i < pre.free@.len() {
            assert(post.free@[i] == pre.free@[i]);
            assert(pre.slots@[pre.free@[i] as int] is None);
            assert(pre.free@[i] != ix);
            assert(p > 0 ==> pre.free@[i] != pre.ord@[p - 1]);
            assert(p < n - 1 ==> pre.free@[i] != pre.ord@[p + 1]);
            assert(post.slots@[post.free@[i] as int] == pre.slots@[pre.free@[i] as int]);
        } else {
            assert(post.free@[i] == ix);
        }
    }
    assert forall|i: int, j: int|
        0 <= i < post.free@.len() && 0 <= j < post.free@.len() && i != j implies post.free@[i]
        != post.free@[j] by {
        if i < pre.free@.len() && j < pre.free@.len() {
        } else if i < pre.free@.len() {
            assert(pre.slots@[pre.free@[i] as int] is None);
            assert(pre.free@[i] != ix);
        } else if j < pre.free@.len() {
            assert(pre.slots@[pre.free@[j] as int] is None);
            assert(pre.free@[j] != ix);
        }
    }
    assert(post.free@.no_duplicates());
}

/// The shape of the state after `push_back` wrote slot `key`:
/// everything needed to re-establish the invariant.
proof fn lemma_push_back_wf<T>(pre: List<T>, post: List<T>, value: T, key: usize)
    requires
        pre.wf(),
        !pre.ord@.contains(key),
        key < post.slots@.len(),
        post.ord@ == pre.ord@.push(key),
        post.free@.len() <= pre.free@.len(),
        forall|i: int|
            0 <= i < post.free@.len() ==> #[trigger] post.free@[i] == pre.free@[i],
        !post.free@.contains(key),
        post.slots@.len() >= pre.slots@.len(),
        post.slots@[key as int] == Some(Node { item: value, next: None::<usize>, prev: pre.tail }),
        pre.ord@.len() > 0 ==> post.slots@[pre.ord@[pre.ord@.len() - 1] as int] == Some(
            Node {
                item: pre.slots@[pre.ord@[pre.ord@.len() - 1] as int]->0.item,
                next: Some(key),
                prev: pre.slots@[pre.ord@[pre.ord@.len() - 1] as int]->0.prev,
            },
        ),
        forall|j: int|
            0 <= j < post.slots@.len() && j != key && (pre.ord@.len() == 0 || j != pre.ord@[
                pre.ord@.len() - 1
            ]) ==> #[trigger] post.slots@[j] == (if j < pre.slots@.len() {
                pre.slots@[j]
            } else {
                None::<Node<T>>
            }),
        post.tail == Some(key),
        post.head == (if pre.ord@.len() == 0 {
            Some(key)
        } else {
            pre.head
        }),
    ensures
        post.wf(),
{
    let ord = post.ord@;
    let last = pre.ord@.len() - 1;
    assert forall|i: int| 0 <= i < ord.len() implies (#[trigger] ord[i]) < post.slots@.len()
        && post.slots@[ord[i] as int] is Some by {
        if i < ord.len() - 1 {
            assert(pre.ord@[i] < pre.slots@.len());
        }
    }
    assert(ord.no_duplicates());
    assert forall|i: int| 0 <= i < ord.len() implies (#[trigger] post.slots@[ord[i] as int])->0.next
        == (if i == ord.len() - 1 {
        None::<usize>
    } else {
        Some(ord[i + 1])
    }) by {
        if i < ord.len() - 1 {
            let j = ord[i] as int;
            if i == last {
                assert(j == pre.ord@[last]);
            } else {
                assert(pre.ord@[i] != pre.ord@[last]);
                assert(post.slots@[j] == pre.slots@[j]);
            }
        }
    }
    assert forall|i: int| 0 <= i < ord.len() implies (#[trigger] post.slots@[ord[i] as int])->0.prev
        == (if i == 0 {
        None::<usize>
    } else {
        Some(ord[i - 1])
    }) by {
        let j = ord[i] as int;
        if i == ord.len() - 1 {
            if pre.ord@.len() == 0 {
            } else {
                assert(post.slots@[j]->0.prev == pre.tail);
            }
        } else {
            if i == last && pre.ord@.len() >= 1 {
            } else {
                assert(pre.ord@[i] != pre.ord@[last]);
                assert(post.slots@[j] == pre.slots@[j]);
            }
        }
    }
    assert forall|j: usize| j < post.slots@.len() && (#[trigger] post.slots@[j as int]) is Some
        implies ord.contains(j) by {
        if j == key {
            assert(ord[ord.len() - 1] == key);
        } else if pre.ord@.len() > 0 && j == pre.ord@[last] {
            assert(ord[last] == pre.ord@[last]);
        } else if j < pre.slots@.len() {
            assert(pre.slots@[j as int] is Some);
            assert(pre.ord@.contains(j));
            let k = choose|k: int| 0 <= k < pre.ord@.len() && pre.ord@[k] == j;
            assert(ord[k] == j);
        }
    }
    assert forall|i: int| 0 <= i < post.free@.len() implies (#[trigger] post.free@[i])
        < post.slots@.len() && post.slots@[post.free@[i] as int] is None by {
        assert(post.free@[i] == pre.free@[i]);
        assert(pre.free@[i] < pre.slots@.len());
        assert(pre.slots@[pre.free@[i] as int] is None);
        if pre.ord@.len() > 0 {
            assert(pre.slots@[pre.ord@[last] as int] is Some);
            assert(pre.free@[i] != pre.ord@[last]);
        }
        assert(post.free@[i] != key);
        assert(post.slots@[post.free@[i] as int] == pre.slots@[pre.free@[i] as int]);
    }
    assert(post.free@.no_duplicates());
}

/// The shape of the state after `push_front` wrote slot `key`:
/// everything needed to re-establish the invariant.
proof fn lemma_push_front_wf<T>(pre: List<T>, post: List<T>, value: T, key: usize)
    requires
        pre.wf(),
        !pre.ord@.contains(key),
        key < post.slots@.len(),
        post.ord@ == seq![key] + pre.ord@,
        post.free@.len() <= pre.free@.len(),
        forall|i: int|
            0 <= i < post.free@.len() ==> #[trigger] post.free@[i] == pre.free@[i],
        !post.free@.contains(key),
        post.slots@.len() >= pre.slots@.len(),
        post.slots@[key as int] == Some(Node { item: value, next: pre.head, prev: None::<usize> }),
        pre.ord@.len() > 0 ==> post.slots@[pre.ord@[0] as int] == Some(
            Node {
                item: pre.slots@[pre.ord@[0] as int]->0.item,
                next: pre.slots@[pre.ord@[0] as int]->0.next,
                prev: Some(key),
            },
        ),
        forall|j: int|
            0 <= j < post.slots@.len() && j != key && (pre.ord@.len() == 0 || j != pre.ord@[0])
                ==> #[trigger] post.slots@[j] == (if j < pre.slots@.len() {
                pre.slots@[j]
            } else {
                None::<Node<T>>
            }),
        post.head == Some(key),
        post.tail == (if pre.ord@.len() == 0 {
            Some(key)
        } else {
            pre.tail
        }),
    ensures
        post.wf(),
{
    let ord = post.ord@;
    assert forall|i: int| 0 <= i < ord.len() implies (#[trigger] ord[i]) < post.slots@.len()
        && post.slots@[ord[i] as int] is Some by {
        if i > 0 {
            assert(pre.ord@[i - 1] < pre.slots@.len());
        }
    }
    assert(ord.no_duplicates());
    assert forall|i: int| 0 <= i < ord.len() implies (#[trigger] post.slots@[ord[i] as int])->0.prev
        == (if i == 0 {
        None::<usize>
    } else {
        Some(ord[i - 1])
    }) by {
        if i > 0 {
            let j = ord[i] as int;
            if i == 1 {
                assert(j == pre.ord@[0]);
            } else {
                assert(pre.ord@[i - 1] != pre.ord@[0]);
                assert(post.slots@[j] == pre.slots@[j]);
            }
        }
    }
    assert forall|i: int| 0 <= i < ord.len() implies (#[trigger] post.slots@[ord[i] as int])->0.next
        == (if i == ord.len() - 1 {
        None::<usize>
    } else {
        Some(ord[i + 1])
    }) by {
        let j = ord[i] as int;
        if i == 0 {
            if pre.ord@.len() == 0 {
            } else {
                assert(post.slots@[j]->0.next == pre.head);
            }
        } else {
            if i == 1 && pre.ord@.len() >= 1 {
                if pre.ord@.len() == 1 {
                } else {
                    assert(pre.ord@[0] != pre.ord@[1]);
                }
            } else {
                assert(pre.ord@[i - 1] != pre.ord@[0]);
                assert(post.slots@[j] == pre.slots@[j]);
            }
        }
    }
    assert forall|j: usize| j < post.slots@.len() && (#[trigger] post.slots@[j as int]) is Some
        implies ord.contains(j) by {
        if j == key {
            assert(ord[0] == key);
        } else if pre.ord@.len() > 0 && j == pre.ord@[0] {
            assert(ord[1] == pre.ord@[0]);
        } else if j < pre.slots@.len() {
            assert(pre.slots@[j as int] is Some);
            assert(pre.ord@.contains(j));
            let k = choose|k: int| 0 <= k < pre.ord@.len() && pre.ord@[k] == j;
            assert(ord[k + 1] == j);
        }
    }
    assert forall|i: int| 0 <= i < post.free@.len() implies (#[trigger] post.free@[i])
        < post.slots@.len() && post.slots@[post.free@[i] as int] is None by {
        assert(post.free@[i] == pre.free@[i]);
        assert(pre.free@[i] < pre.slots@.len());
        assert(pre.slots@[pre.free@[i] as int] is None);
        if pre.ord@.len() > 0 {
            assert(pre.slots@[pre.ord@[0] as int] is Some);
            assert(pre.free@[i] != pre.ord@[0]);
        }
        assert(post.free@[i] != key);
        assert(post.slots@[post.free@[i] as int] == pre.slots@[pre.free@[i] as int]);
    }
    assert(post.free@.no_duplicates());
}

} // verus!
