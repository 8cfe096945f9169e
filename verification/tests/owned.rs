use binder_lists::nodes::popping::DeathNode;
use binder_lists::owned::ends;
use binder_lists::owned::head;
use binder_lists::owned::ring;
use binder_lists::owned::trusting;
use binder_lists::text;

#[test]
fn head_list_keeps_the_order() {
    let mut list = head::DeathList::new();
    assert!(list.is_empty());
    let a = list.insert('a');
    let b = list.insert('b');
    let c = list.insert('c');
    assert_eq!(list.first(), Some(c));
    assert_eq!(list.next(c), Some(b));
    assert_eq!(list.next(a), None);
    assert_eq!(list.get(b), Some(&'b'));
    assert_eq!(list.remove(b), Some('b'));
    assert_eq!(list.remove(b), None);
    assert_eq!(list.get(b), None);
    assert_eq!(list.next(c), Some(a));
    assert_eq!(list.pop_front(), Some('c'));
    assert_eq!(list.take_all(), vec!['a']);
    assert!(list.is_empty());
    assert_eq!(list.pop_front(), None);
    // Addresses are not used twice.
    let d = list.insert('d');
    assert!(d != a && d != b && d != c);
}

#[test]
fn head_list_finds_the_first_match() {
    let mut list = head::DeathList::new();
    for (value, id) in [('a', 1), ('b', 2), ('c', 1)] {
        list.insert(DeathNode::new(value, id));
    }
    let addr = list.find(&1).unwrap();
    assert_eq!(list.get(addr).map(|d| d.recipient), Some('c'));
    assert_eq!(list.find(&3), None);
}

#[test]
fn ends_list_keeps_the_order() {
    let mut list = ends::DeathList::new();
    let b = list.push_back('b');
    let c = list.push_back('c');
    let a = list.push_front('a');
    assert_eq!(list.len(), 3);
    assert_eq!(list.first(), Some(a));
    assert_eq!(list.next(a), Some(b));
    assert_eq!(list.next(c), None);
    assert_eq!(list.remove(c), Some('c'));
    assert_eq!(list.get(c), None);
    list.push_back('d');
    assert_eq!(list.pop_front(), Some('a'));
    assert_eq!(list.take_all(), vec!['b', 'd']);
    assert_eq!(list.len(), 0);
    assert!(list.is_empty());
}

#[test]
fn ends_list_removes_all_matches() {
    let mut list = ends::DeathList::new();
    for (value, id) in [('a', 1), ('b', 2), ('c', 1), ('d', 3)] {
        list.push_back(DeathNode::new(value, id));
    }
    let removed: Vec<char> = list.remove_matching(&1).into_iter().map(|d| d.recipient).collect();
    assert_eq!(removed, vec!['a', 'c']);
    assert!(list.remove_matching(&1).is_empty());
    let addr = list.find(&3).unwrap();
    assert_eq!(list.get(addr).map(|d| d.recipient), Some('d'));
    let rest: Vec<char> = list.take_all().into_iter().map(|d| d.recipient).collect();
    assert_eq!(rest, vec!['b', 'd']);
}

#[test]
fn ring_list_keeps_the_order() {
    let mut list = ring::DeathList::new();
    let b = list.push_back('b');
    let a = list.push_front('a');
    let c = list.push_back('c');
    assert_eq!(list.len(), 3);
    assert_eq!((list.first(), list.next(a), list.next(b)), (Some(a), Some(b), Some(c)));
    assert_eq!(list.next(b), Some(c));
    assert_eq!(list.next(c), None);
    assert_eq!(list.remove(b), Some('b'));
    assert_eq!(list.remove(b), None);
    assert_eq!(list.first(), Some(a));
    assert_eq!(list.pop_front(), Some('a'));
    assert_eq!(list.take_all(), vec!['c']);
    assert!(list.is_empty());
}

#[test]
fn numbers_in_messages() {
    assert_eq!(text::compose("node ", 0, ""), "node 0");
    assert_eq!(text::compose("<", 1203, ">"), "<1203>");
    assert_eq!(text::compose("", u64::MAX, "!"), "18446744073709551615!");
    let mut text = "n=".to_string();
    text::append_decimal(&mut text, 90);
    assert_eq!(text, "n=90");
}

#[test]
fn trusting_tailed_list_forgets_what_it_holds() {
    let mut list = trusting::TailedList::new();
    let a = list.push_back('a');
    let b = list.push_back('b');
    let c = list.push_back('c');
    list.erase(b);
    assert_eq!(list.listed(), vec!['a', 'c']);
    list.erase(b);
    assert!(list.listed().is_empty());
    // The links among the forgotten elements are still there.
    list.erase(a);
    assert_eq!(list.listed(), vec!['c']);
    let d = list.push_back('d');
    assert_eq!(list.listed(), vec!['d']);
    list.erase(d);
    assert!(list.listed().is_empty());
    list.erase(c);
    list.push_back('e');
    list.clear();
    assert!(list.listed().is_empty());
}

#[test]
fn trusting_headed_list_forgets_what_it_holds() {
    let mut list = trusting::HeadedList::new();
    list.push_front('a');
    let b = list.push_front('b');
    list.push_front('c');
    list.erase(b);
    assert_eq!(list.take_all(), vec!['c', 'a']);
    assert!(list.take_all().is_empty());
    let d = list.push_front('d');
    list.push_front('e');
    list.erase(d);
    list.erase(d);
    assert!(list.take_all().is_empty());
}

#[test]
fn trusting_ring_brings_elements_back() {
    let mut list = trusting::RingList::new();
    let a = list.push_front('a');
    let b = list.push_front('b');
    let c = list.push_front('c');
    assert_eq!(list.order(), vec![c, b, a]);
    list.erase(b);
    list.erase(b);
    assert_eq!(list.order(), vec![c, a]);
    list.erase(a);
    assert_eq!(list.order(), vec![c]);
    // The element between the two is joined out again, and its old neighbour is back.
    list.erase(b);
    assert_eq!(list.order(), vec![c, a]);
    assert_eq!(*list.get(b), 'b');
}
