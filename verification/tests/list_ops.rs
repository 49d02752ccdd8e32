use arena_list::List;
use arena_list::NodeId;

fn collect_forward(list: &List<i32>) -> Vec<i32> {
    let mut out: Vec<i32> = Vec::new();
    let mut c = list.cursor_front();
    loop {
        match c.current() {
            Some(n) => out.push(*n.item()),
            None => break,
        }
        if !c.try_next() {
            break;
        }
    }
    out
}

fn collect_backward(list: &List<i32>) -> Vec<i32> {
    let mut out: Vec<i32> = Vec::new();
    let mut c = list.cursor_back();
    loop {
        match c.current() {
            Some(n) => out.push(*n.item()),
            None => break,
        }
        if !c.try_prev() {
            break;
        }
    }
    out
}

fn collect_handles_forward(list: &List<i32>) -> Vec<NodeId> {
    let mut out: Vec<NodeId> = Vec::new();
    let mut at = list.init();
    while let Some(id) = at {
        out.push(id);
        at = list.get(id).expect("handle from traversal is occupied").next();
    }
    out
}

#[test]
fn new_list_is_empty() {
    let list: List<i32> = List::new();
    assert!(list.init().is_none());
    assert!(list.last().is_none());
    assert_eq!(collect_forward(&list), Vec::<i32>::new());
}

#[test]
fn default_matches_new() {
    let list: List<i32> = Default::default();
    assert!(list.init().is_none());
    assert!(list.last().is_none());
}

#[test]
fn with_capacity_starts_empty() {
    let mut list: List<i32> = List::with_capacity(16);
    assert!(list.init().is_none());
    let a = list.push_back(1);
    assert_eq!(list.init(), Some(a));
    assert_eq!(list.last(), Some(a));
}

#[test]
fn reserve_keeps_contents() {
    let mut list: List<i32> = List::new();
    let a = list.push_back(1);
    let b = list.push_back(2);
    list.reserve(100);
    list.reserve_exact(50);
    assert_eq!(collect_forward(&list), vec![1, 2]);
    assert_eq!(list.init(), Some(a));
    assert_eq!(list.last(), Some(b));
}

#[test]
fn push_front_then_pop_front_round_trips() {
    let mut list: List<i32> = List::new();
    list.push_back(1);
    list.push_back(2);
    let before = collect_forward(&list);
    let head_before = list.init();
    let tail_before = list.last();

    list.push_front(0);
    let popped = list.pop_front().expect("list is non-empty after a push");
    assert_eq!(popped.into_inner(), 0);

    assert_eq!(collect_forward(&list), before);
    assert_eq!(list.init(), head_before);
    assert_eq!(list.last(), tail_before);
}

#[test]
fn remove_stale_handle_is_noop() {
    let mut list: List<i32> = List::new();
    let a = list.push_back(1);
    let b = list.push_back(2);
    let c = list.push_back(3);

    let first = list.remove(b).expect("b is occupied");
    assert_eq!(first.into_inner(), 2);
    assert!(!list.contains(b));

    let again = list.remove(b);
    assert!(again.is_none());
    assert_eq!(collect_forward(&list), vec![1, 3]);
    assert_eq!(list.init(), Some(a));
    assert_eq!(list.last(), Some(c));
}

#[test]
fn removing_only_element_empties_both_ends() {
    let mut list: List<i32> = List::new();
    let h = list.push_back(7);
    assert_eq!(list.init(), Some(h));
    assert_eq!(list.last(), Some(h));

    let node = list.remove(h).expect("h is occupied");
    assert_eq!(node.into_inner(), 7);
    assert!(list.init().is_none());
    assert!(list.last().is_none());

    let j = list.push_front(8);
    assert_eq!(list.init(), Some(j));
    assert_eq!(list.last(), Some(j));
    assert_eq!(list.init(), list.last());
}

#[test]
fn removing_only_element_then_push_back_joins_ends() {
    let mut list: List<i32> = List::new();
    let h = list.push_front(7);
    list.remove(h).expect("h is occupied");
    assert!(list.init().is_none());
    assert!(list.last().is_none());

    let j = list.push_back(9);
    assert_eq!(list.init(), Some(j));
    assert_eq!(list.last(), Some(j));
}

#[test]
fn scenario_three_pushes_then_interior_remove() {
    let mut list: List<i32> = List::new();
    let a = list.push_back(1);
    let b = list.push_back(2);
    let c = list.push_front(0);

    assert_eq!(collect_forward(&list), vec![0, 1, 2]);
    assert_eq!(collect_handles_forward(&list), vec![c, a, b]);

    let removed = list.remove(a).expect("a is occupied");
    assert_eq!(*removed.item(), 1);
    assert_eq!(removed.prev(), Some(c));
    assert_eq!(removed.next(), Some(b));

    assert_eq!(collect_forward(&list), vec![0, 2]);
    assert_eq!(list.init(), Some(c));
    assert_eq!(list.last(), Some(b));
}

#[test]
fn pop_back_on_empty_is_noop() {
    let mut list: List<i32> = List::new();
    assert!(list.pop_back().is_none());
    assert!(list.pop_front().is_none());
    assert!(list.init().is_none());
    assert!(list.last().is_none());
    let h = list.push_back(5);
    assert_eq!(list.init(), Some(h));
}

#[test]
fn pop_front_and_pop_back_take_the_ends() {
    let mut list: List<i32> = List::new();
    list.push_back(1);
    list.push_back(2);
    list.push_back(3);

    let front = list.pop_front().expect("non-empty");
    assert_eq!(front.into_inner(), 1);
    let back = list.pop_back().expect("non-empty");
    assert_eq!(back.into_inner(), 3);
    assert_eq!(collect_forward(&list), vec![2]);
}

#[test]
fn forward_and_backward_traversals_mirror() {
    let mut list: List<i32> = List::new();
    list.push_back(0);
    list.push_back(1);
    list.push_back(2);

    let forward = collect_forward(&list);
    let mut backward = collect_backward(&list);
    assert_eq!(forward, vec![0, 1, 2]);
    backward.reverse();
    assert_eq!(backward, forward);
}

#[test]
fn traversals_mirror_after_every_edit() {
    let mut list: List<i32> = List::new();
    let mut kept: Vec<NodeId> = Vec::new();
    kept.push(list.push_back(1));
    kept.push(list.push_front(0));
    kept.push(list.push_back(2));
    list.remove(kept[0]).expect("occupied");
    list.push_front(-1);
    list.pop_back().expect("non-empty");

    let forward = collect_forward(&list);
    let mut backward = collect_backward(&list);
    backward.reverse();
    assert_eq!(forward, backward);
    assert_eq!(forward, vec![-1, 0]);

    let handles = collect_handles_forward(&list);
    assert_eq!(list.init(), handles.first().copied());
    assert_eq!(list.last(), handles.last().copied());
}

#[test]
fn get_reads_payload_and_links() {
    let mut list: List<i32> = List::new();
    let a = list.push_back(10);
    let b = list.push_back(20);
    let c = list.push_back(30);

    let node = list.get(b).expect("b is occupied");
    assert_eq!(*node.item(), 20);
    assert_eq!(node.prev(), Some(a));
    assert_eq!(node.next(), Some(c));

    let head = list.get(a).expect("a is occupied");
    assert!(head.prev().is_none());
    let tail = list.get(c).expect("c is occupied");
    assert!(tail.next().is_none());
}

#[test]
fn get_on_stale_handle_is_absent() {
    let mut list: List<i32> = List::new();
    let a = list.push_back(10);
    list.remove(a).expect("a is occupied");
    assert!(list.get(a).is_none());
    assert!(list.get_mut(a).is_none());
    assert!(!list.contains(a));
}

#[test]
fn get_mut_updates_payload_in_place() {
    let mut list: List<i32> = List::new();
    let a = list.push_back(10);
    let b = list.push_back(20);

    *list.get_mut(b).expect("b is occupied") = 25;
    assert_eq!(*list.get(b).expect("b is occupied").item(), 25);
    assert_eq!(*list.get(a).expect("a is occupied").item(), 10);
    assert_eq!(collect_forward(&list), vec![10, 25]);
}

#[test]
fn contains_tracks_occupancy() {
    let mut list: List<i32> = List::new();
    let a = list.push_back(1);
    assert!(list.contains(a));
    list.pop_front().expect("non-empty");
    assert!(!list.contains(a));
}

#[test]
fn vacated_slot_is_reused_by_the_next_push() {
    // Handles carry no generation tag: once the slot is recycled, a stale
    // handle names the new occupant.
    let mut list: List<i32> = List::new();
    list.push_back(1);
    let b = list.push_back(2);
    list.remove(b).expect("b is occupied");
    assert!(!list.contains(b));

    let c = list.push_back(3);
    assert_eq!(b, c);
    assert!(list.contains(b));
    assert_eq!(*list.get(b).expect("slot was reused").item(), 3);
}

#[test]
fn owned_node_payload_can_be_edited() {
    let mut list: List<i32> = List::new();
    let a = list.push_back(1);
    list.push_back(2);

    let mut node = list.remove(a).expect("a is occupied");
    *node.item_mut() = 11;
    assert_eq!(*node.item(), 11);
    assert_eq!(node.next(), list.init());
    assert_eq!(node.into_inner(), 11);
}

#[test]
fn string_payloads_move_in_and_out() {
    let mut list: List<String> = List::new();
    list.push_back(String::from("middle"));
    list.push_front(String::from("front"));
    list.push_back(String::from("back"));

    let front = list.pop_front().expect("non-empty");
    assert_eq!(front.into_inner(), "front");
    let back = list.pop_back().expect("non-empty");
    assert_eq!(back.into_inner(), "back");
    let only = list.pop_front().expect("non-empty");
    assert_eq!(*only.item(), "middle");
    assert!(list.pop_front().is_none());
}
