use vstd::prelude::*;

use crate::list::lemma_list_invariants;
use crate::list::List;
use crate::list::NodeId;

verus! {

/// The handles visited by repeatedly following `next` from `at`, taking at
/// most `fuel` steps.
pub open spec fn walk_forward<T>(l: List<T>, at: Option<NodeId>, fuel: nat) -> Seq<NodeId>
    decreases fuel,
{
    if fuel == 0 {
        Seq::empty()
    } else {
        match at {
            None => Seq::empty(),
            Some(id) => seq![id] + walk_forward(l, l.next_of(id), (fuel - 1) as nat),
        }
    }
}

/// The handles visited by repeatedly following `prev` from `at`, taking at
/// most `fuel` steps.
pub open spec fn walk_backward<T>(l: List<T>, at: Option<NodeId>, fuel: nat) -> Seq<NodeId>
    decreases fuel,
{
    if fuel == 0 {
        Seq::empty()
    } else {
        match at {
            None => Seq::empty(),
            Some(id) => seq![id] + walk_backward(l, l.prev_of(id), (fuel - 1) as nat),
        }
    }
}

/// The forward walk from position `i` yields exactly the tail of the handle
/// sequence from `i` on.
proof fn lemma_walk_forward_from<T>(l: List<T>, i: int)
    requires
        l.wf(),
        0 <= i <= l.handles().len(),
    ensures
        walk_forward(
            l,
            if i == l.handles().len() {
                None::<NodeId>
            } else {
                Some(l.handles()[i])
            },
            (l.handles().len() - i) as nat,
        ) == l.handles().subrange(i, l.handles().len() as int),
    decreases l.handles().len() - i,
{
    lemma_list_invariants(l);
    let n = l.handles().len() as int;
    if i == n {
        assert(walk_forward(l, None::<NodeId>, 0) =~= l.handles().subrange(n, n));
    } else {
        lemma_walk_forward_from(l, i + 1);
        assert(l.next_of(l.handles()[i]) == (if i == n - 1 {
            None::<NodeId>
        } else {
            Some(l.handles()[i + 1])
        }));
        assert(seq![l.handles()[i]] + l.handles().subrange(i + 1, n) =~= l.handles().subrange(
            i,
            n,
        ));
    }
}

/// The backward walk from position `i` yields exactly the reversed prefix of
/// the handle sequence up to `i`.
proof fn lemma_walk_backward_from<T>(l: List<T>, i: int)
    requires
        l.wf(),
        -1 <= i < l.handles().len(),
    ensures
        walk_backward(
            l,
            if i < 0 {
                None::<NodeId>
            } else {
                Some(l.handles()[i])
            },
            (i + 1) as nat,
        ) == l.handles().subrange(0, i + 1).reverse(),
    decreases i + 1,
{
    lemma_list_invariants(l);
    if i < 0 {
        assert(walk_backward(l, None::<NodeId>, 0) =~= l.handles().subrange(0, 0).reverse());
    } else {
        lemma_walk_backward_from(l, i - 1);
        assert(l.prev_of(l.handles()[i]) == (if i == 0 {
            None::<NodeId>
        } else {
            Some(l.handles()[i - 1])
        }));
        assert(seq![l.handles()[i]] + l.handles().subrange(0, i).reverse()
            =~= l.handles().subrange(0, i + 1).reverse());
    }
}

/// A full forward traversal (head to tail via `next`) and a full backward
/// traversal (tail to head via `prev`) visit the same handles in exactly
/// reversed order: the forward walk is the handle sequence itself, and the
/// backward walk is its reverse.
pub proof fn lemma_traversals_mirror<T>(l: List<T>)
    requires
        l.wf(),
    ensures
        walk_forward(l, l.head_handle(), l.handles().len() as nat) == l.handles(),
        walk_backward(l, l.tail_handle(), l.handles().len() as nat) == l.handles().reverse(),
        walk_backward(l, l.tail_handle(), l.handles().len() as nat).to_multiset()
            == l.handles().to_multiset(),
{
    let n = l.handles().len() as int;
    lemma_walk_forward_from(l, 0);
    assert(l.handles().subrange(0, n) =~= l.handles());
    lemma_walk_backward_from(l, n - 1);
    l.handles().lemma_reverse_to_multiset();
}

/// `push_front(x)` followed immediately by `pop_front()` returns `x` and
/// restores the payload and handle sequences to their pre-push state. The
/// hypotheses are exactly what `List::push_front` and `List::pop_front`
/// ensure for the two calls.
pub proof fn lemma_push_front_pop_front_round_trip<T>(
    l0: List<T>,
    l1: List<T>,
    l2: List<T>,
    x: T,
    id: NodeId,
    popped: T,
)
    requires
        l1.handles() == seq![id] + l0.handles(),
        l1@ == seq![x] + l0@,
        popped == l1@[0],
        l2@ == l1@.drop_first(),
        l2.handles() == l1.handles().drop_first(),
    ensures
        popped == x,
        l2@ == l0@,
        l2.handles() == l0.handles(),
{
    assert(l2@ =~= l0@);
    assert(l2.handles() =~= l0.handles());
}

/// Removing the only element leaves both endpoint handles absent. The
/// hypotheses are what `List::remove` ensures when it removes the single
/// node of a one-element list.
pub proof fn lemma_remove_only_element_empties<T>(pre: List<T>, post: List<T>)
    requires
        pre.handles().len() == 1,
        pre@.len() == 1,
        post.handles() == pre.handles().remove(0),
        post@ == pre@.remove(0),
    ensures
        post.head_handle() is None,
        post.tail_handle() is None,
        post@.len() == 0,
{
}

/// A push into an empty list reestablishes `head_handle == tail_handle`:
/// both name the single new node. The disjunction covers what
/// `List::push_front` and `List::push_back` ensure on an empty list.
pub proof fn lemma_push_into_empty_joins_ends<T>(pre: List<T>, post: List<T>, id: NodeId)
    requires
        pre.handles().len() == 0,
        post.handles() == seq![id] + pre.handles() || post.handles() == pre.handles().push(id),
    ensures
        post.head_handle() == Some(id),
        post.tail_handle() == Some(id),
        post.head_handle() == post.tail_handle(),
{
    assert(post.handles().len() == 1);
    assert(post.handles()[0] == id);
}

} // verus!
