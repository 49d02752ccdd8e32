use arena_list::List;

#[test]
fn cursor_at_head_does_not_retreat() {
    let mut list: List<i32> = List::new();
    list.push_back(10);
    list.push_back(20);

    let mut c = list.cursor_front();
    assert!(!c.try_prev());
    let node = c.current().expect("cursor is at the head");
    assert_eq!(*node.item(), 10);
}

#[test]
fn cursor_at_tail_does_not_advance() {
    let mut list: List<i32> = List::new();
    list.push_back(10);
    list.push_back(20);

    let mut c = list.cursor_back();
    assert!(!c.try_next());
    let node = c.current().expect("cursor is at the tail");
    assert_eq!(*node.item(), 20);
}

#[test]
fn cursor_on_empty_list_reports_absence() {
    let list: List<i32> = List::new();
    let mut c = list.cursor_front();
    assert!(c.current().is_none());
    assert!(!c.try_next());
    assert!(!c.try_prev());
}

#[test]
fn cursor_walks_both_ways() {
    let mut list: List<i32> = List::new();
    list.push_back(1);
    list.push_back(2);
    list.push_back(3);

    let mut c = list.cursor_front();
    assert_eq!(*c.current().expect("at head").item(), 1);
    assert!(c.try_next());
    assert_eq!(*c.current().expect("at second").item(), 2);
    assert!(c.try_next());
    assert_eq!(*c.current().expect("at tail").item(), 3);
    assert!(!c.try_next());
    assert!(c.try_prev());
    assert_eq!(*c.current().expect("back at second").item(), 2);
}

#[test]
fn cursor_at_handle_starts_there() {
    let mut list: List<i32> = List::new();
    list.push_back(1);
    let b = list.push_back(2);
    list.push_back(3);

    let mut c = list.cursor_at(b);
    assert_eq!(*c.current().expect("b is occupied").item(), 2);
    assert!(c.try_prev());
    assert_eq!(*c.current().expect("at head").item(), 1);
}

#[test]
fn cursor_at_stale_handle_reports_absence() {
    let mut list: List<i32> = List::new();
    list.push_back(1);
    let b = list.push_back(2);
    list.remove(b).expect("b is occupied");

    let mut c = list.cursor_at(b);
    assert!(c.current().is_none());
    assert!(!c.try_next());
    assert!(!c.try_prev());
}

#[test]
fn mutable_cursor_updates_every_payload() {
    let mut list: List<i32> = List::new();
    list.push_back(1);
    list.push_back(2);
    list.push_back(3);

    let mut cm = list.cursor_front_mut();
    loop {
        match cm.current(&mut list) {
            Some(payload) => *payload += 100,
            None => break,
        }
        if !cm.try_next(&list) {
            break;
        }
    }

    let collected: Vec<i32> = {
        let mut out = Vec::new();
        let mut c = list.cursor_front();
        loop {
            match c.current() {
                Some(n) => out.push(*n.item()),
                None => break,
            }
            if !c.try_next() {
                break;
            }
        }
        out
    };
    assert_eq!(collected, vec![101, 102, 103]);
}

#[test]
fn mutable_cursor_walks_backward_from_tail() {
    let mut list: List<i32> = List::new();
    list.push_back(1);
    list.push_back(2);

    let mut cm = list.cursor_back_mut();
    *cm.current(&mut list).expect("at tail") = 20;
    assert!(cm.try_prev(&list));
    *cm.current(&mut list).expect("at head") = 10;
    assert!(!cm.try_prev(&list));

    assert_eq!(*list.get(list.init().expect("non-empty")).expect("head").item(), 10);
    assert_eq!(*list.get(list.last().expect("non-empty")).expect("tail").item(), 20);
}

#[test]
fn mutable_cursor_at_stale_handle_reports_absence() {
    let mut list: List<i32> = List::new();
    list.push_back(1);
    let b = list.push_back(2);
    list.remove(b).expect("b is occupied");

    let mut cm = list.cursor_at_mut(b);
    assert!(cm.current(&mut list).is_none());
    assert!(!cm.try_next(&list));
    assert!(!cm.try_prev(&list));
    let mut c2 = list.cursor_front();
    assert_eq!(*c2.current().expect("head still there").item(), 1);
    assert!(!c2.try_next());
}

#[test]
fn cursor_is_a_live_view_of_the_list() {
    let mut list: List<i32> = List::new();
    let a = list.push_back(1);
    let b = list.push_back(2);
    list.push_back(3);

    // Anchor a position, edit elsewhere through handles, then step: the
    // cursor follows the links as they stand now.
    let mut cm = list.cursor_at_mut(a);
    list.remove(b).expect("b is occupied");
    assert!(cm.try_next(&list));
    assert_eq!(*cm.current(&mut list).expect("moved to the new successor"), 3);
}
