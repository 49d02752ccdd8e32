use vstd::prelude::*;

use crate::list::List;
use crate::list::Node;
use crate::list::NodeId;

verus! {

/// A read-only traversal position over a borrowed list.
///
/// The cursor is a live view: each step follows the links as they stand in
/// the list at call time. Stepping past an end leaves the cursor unmoved and
/// reports `false`; a cursor anchored at a handle that is not currently
/// occupied uniformly reports absence.
#[derive(Copy, Clone)]
pub struct Cursor<'a, T> {
    current: Option<NodeId>,
    backing: &'a List<T>,
}

/// A traversal position for in-place payload mutation.
///
/// It tracks only the current position; each operation takes the list it
/// walks, so the host language's aliasing rules still serialize structural
/// edits. Structural edits go through [`List::remove`] and the push
/// operations, not through the cursor.
pub struct CursorMut {
    current: Option<NodeId>,
}

impl<T> List<T> {
    /// A read-only cursor anchored at the head.
    pub fn cursor_front<'a>(&'a self) -> (c: Cursor<'a, T>)
        requires
            self.wf(),
        ensures
            c.list() == *self,
            c.pos() == self.head_handle(),
    {
        Cursor { current: self.init(), backing: self }
    }

    /// A read-only cursor anchored at the tail.
    pub fn cursor_back<'a>(&'a self) -> (c: Cursor<'a, T>)
        requires
            self.wf(),
        ensures
            c.list() == *self,
            c.pos() == self.tail_handle(),
    {
        Cursor { current: self.last(), backing: self }
    }

    /// A read-only cursor anchored at an explicit handle. If the handle is
    /// not currently occupied, the cursor's queries uniformly report absence.
    pub fn cursor_at<'a>(&'a self, id: NodeId) -> (c: Cursor<'a, T>)
        ensures
            c.list() == *self,
            c.pos() == Some(id),
    {
        Cursor { current: Some(id), backing: self }
    }

    /// A mutating cursor anchored at the head.
    pub fn cursor_front_mut(&self) -> (c: CursorMut)
        requires
            self.wf(),
        ensures
            c.pos() == self.head_handle(),
    {
        CursorMut { current: self.init() }
    }

    /// A mutating cursor anchored at the tail.
    pub fn cursor_back_mut(&self) -> (c: CursorMut)
        requires
            self.wf(),
        ensures
            c.pos() == self.tail_handle(),
    {
        CursorMut { current: self.last() }
    }

    /// A mutating cursor anchored at an explicit handle. If the handle is
    /// not currently occupied, the cursor's queries uniformly report absence.
    pub fn cursor_at_mut(&self, id: NodeId) -> (c: CursorMut)
        ensures
            c.pos() == Some(id),
    {
        CursorMut { current: Some(id) }
    }
}

impl<'a, T> Cursor<'a, T> {
    /// The list this cursor walks, as a spec value.
    pub closed spec fn list(&self) -> List<T> {
        *self.backing
    }

    /// The current position, absent for a cursor that stepped off an empty
    /// list's end.
    pub closed spec fn pos(&self) -> Option<NodeId> {
        self.current
    }

    /// The node at the current position, absent if the cursor has no valid
    /// current position.
    pub fn current(&self) -> (r: Option<&'a Node<T>>)
        requires
            self.list().wf(),
        ensures
            self.pos() is None ==> r is None,
            self.pos() matches Some(id) ==> {
                &&& (r is Some <==> self.list().valid(id))
                &&& r is Some ==> r->0.spec_next() == self.list().next_of(id)
                    && r->0.spec_prev() == self.list().prev_of(id)
                &&& forall|i: int|
                    0 <= i < self.list().handles().len() && (#[trigger] self.list().handles()[i])
                        == id ==> r is Some && r->0@ == self.list()@[i]
            },
    {
        match self.current {
            Some(id) => self.backing.get(id),
            None => None,
        }
    }

    /// If the current node has a successor, moves there and returns true;
    /// otherwise leaves the cursor unmoved and returns false.
    pub fn try_next(&mut self) -> (moved: bool)
        requires
            old(self).list().wf(),
        ensures
            final(self).list() == old(self).list(),
            moved <==> (old(self).pos() matches Some(id) && old(self).list().valid(id)
                && old(self).list().next_of(id) is Some),
            moved ==> final(self).pos() == old(self).list().next_of(old(self).pos()->0),
            !moved ==> final(self).pos() == old(self).pos(),
    {
        let id = match self.current {
            Some(id) => id,
            None => {
                return false;
            },
        };
        match self.backing.get(id) {
            Some(node) => match node.next() {
                Some(nid) => {
                    self.current = Some(nid);
                    true
                },
                None => false,
            },
            None => false,
        }
    }

    /// If the current node has a predecessor, moves there and returns true;
    /// otherwise leaves the cursor unmoved and returns false.
    pub fn try_prev(&mut self) -> (moved: bool)
        requires
            old(self).list().wf(),
        ensures
            final(self).list() == old(self).list(),
            moved <==> (old(self).pos() matches Some(id) && old(self).list().valid(id)
                && old(self).list().prev_of(id) is Some),
            moved ==> final(self).pos() == old(self).list().prev_of(old(self).pos()->0),
            !moved ==> final(self).pos() == old(self).pos(),
    {
        let id = match self.current {
            Some(id) => id,
            None => {
                return false;
            },
        };
        match self.backing.get(id) {
            Some(node) => match node.prev() {
                Some(pid) => {
                    self.current = Some(pid);
                    true
                },
                None => false,
            },
            None => false,
        }
    }
}

impl CursorMut {
    /// The current position, absent for a cursor that was anchored on an
    /// empty list.
    pub closed spec fn pos(&self) -> Option<NodeId> {
        self.current
    }

    /// Mutable access to the payload at the current position, absent if the
    /// cursor has no valid current position in `list`. The links and all
    /// handles are unaffected.
    pub fn current<'a, T>(&self, list: &'a mut List<T>) -> (r: Option<&'a mut T>)
        requires
            old(list).wf(),
        ensures
            final(list).wf(),
            final(list).handles() == old(list).handles(),
            r is None ==> *final(list) == *old(list),
            self.pos() is None ==> r is None,
            self.pos() matches Some(id) ==> {
                &&& (r is Some <==> old(list).valid(id))
                &&& forall|i: int|
                    0 <= i < old(list).handles().len() && (#[trigger] old(list).handles()[i])
                        == id ==> r is Some && *r->0 == old(list)@[i] && final(list)@ == old(
                        list,
                    )@.update(i, *final(r->0))
            },
    {
        match self.current {
            Some(id) => list.get_mut(id),
            None => None,
        }
    }

    /// If the current node has a successor in `list`, moves there and
    /// returns true; otherwise leaves the cursor unmoved and returns false.
    pub fn try_next<T>(&mut self, list: &List<T>) -> (moved: bool)
        requires
            list.wf(),
        ensures
            moved <==> (old(self).pos() matches Some(id) && list.valid(id) && list.next_of(id)
                is Some),
            moved ==> final(self).pos() == list.next_of(old(self).pos()->0),
            !moved ==> final(self).pos() == old(self).pos(),
    {
        let id = match self.current {
            Some(id) => id,
            None => {
                return false;
            },
        };
        match list.get(id) {
            Some(node) => match node.next() {
                Some(nid) => {
                    self.current = Some(nid);
                    true
                },
                None => false,
            },
            None => false,
        }
    }

    /// If the current node has a predecessor in `list`, moves there and
    /// returns true; otherwise leaves the cursor unmoved and returns false.
    pub fn try_prev<T>(&mut self, list: &List<T>) -> (moved: bool)
        requires
            list.wf(),
        ensures
            moved <==> (old(self).pos() matches Some(id) && list.valid(id) && list.prev_of(id)
                is Some),
            moved ==> final(self).pos() == list.prev_of(old(self).pos()->0),
            !moved ==> final(self).pos() == old(self).pos(),
    {
        let id = match self.current {
            Some(id) => id,
            None => {
                return false;
            },
        };
        match list.get(id) {
            Some(node) => match node.prev() {
                Some(pid) => {
                    self.current = Some(pid);
                    true
                },
                None => false,
            },
            None => false,
        }
    }
}

} // verus!
