use krust::utils::linked_list::{LinkedList, LinkedListIterMut};

fn items(list: &LinkedList<u32>) -> Vec<u32> {
    let mut it = list.iter();
    let mut out = Vec::new();
    while let Some(x) = it.next() {
        out.push(x);
    }
    out
}

fn filled(values: &[u32]) -> LinkedList<u32> {
    let mut list = LinkedList::new();
    for v in values {
        list.add(*v);
    }
    list
}

#[test]
fn new_list_is_empty() {
    let list: LinkedList<u32> = LinkedList::new();
    assert_eq!(items(&list), Vec::<u32>::new());
    let mut it = list.iter();
    assert_eq!(it.next(), None);
    assert_eq!(it.next(), None);
}

#[test]
fn add_appends_at_the_tail() {
    let list = filled(&[3, 1, 2]);
    assert_eq!(items(&list), vec![3, 1, 2]);
}

#[test]
fn delete_head() {
    let mut list = filled(&[1, 2, 3]);
    assert!(list.delete(1));
    assert_eq!(items(&list), vec![2, 3]);
    list.add(4);
    assert_eq!(items(&list), vec![2, 3, 4]);
}

#[test]
fn delete_tail() {
    let mut list = filled(&[1, 2, 3]);
    assert!(list.delete(3));
    assert_eq!(items(&list), vec![1, 2]);
    list.add(4);
    assert_eq!(items(&list), vec![1, 2, 4]);
}

#[test]
fn delete_interior() {
    let mut list = filled(&[1, 2, 3]);
    assert!(list.delete(2));
    assert_eq!(items(&list), vec![1, 3]);
    list.add(4);
    assert_eq!(items(&list), vec![1, 3, 4]);
}

#[test]
fn delete_only_element_then_add() {
    let mut list = filled(&[7]);
    assert!(list.delete(7));
    assert_eq!(items(&list), Vec::<u32>::new());
    list.add(8);
    list.add(9);
    assert_eq!(items(&list), vec![8, 9]);
}

#[test]
fn delete_missing_value_changes_nothing() {
    let mut list = filled(&[1, 2, 3]);
    assert!(!list.delete(9));
    assert_eq!(items(&list), vec![1, 2, 3]);
    let mut empty: LinkedList<u32> = LinkedList::new();
    assert!(!empty.delete(1));
}

#[test]
fn delete_takes_the_first_of_equal_values() {
    let mut list = filled(&[5, 1, 5, 2, 5]);
    assert!(list.delete(5));
    assert_eq!(items(&list), vec![1, 5, 2, 5]);
    assert!(list.delete(5));
    assert_eq!(items(&list), vec![1, 2, 5]);
    assert!(list.delete(5));
    assert_eq!(items(&list), vec![1, 2]);
    assert!(!list.delete(5));
}

#[test]
fn slots_of_deleted_nodes_are_used_again() {
    let mut list = filled(&[1, 2, 3, 4]);
    assert!(list.delete(2));
    assert!(list.delete(3));
    list.add(5);
    list.add(6);
    list.add(7);
    assert_eq!(items(&list), vec![1, 4, 5, 6, 7]);
    assert!(list.delete(1));
    assert!(list.delete(7));
    list.add(8);
    assert_eq!(items(&list), vec![4, 5, 6, 8]);
}

#[test]
fn iter_does_not_change_the_list() {
    let list = filled(&[1, 2, 3]);
    assert_eq!(items(&list), vec![1, 2, 3]);
    assert_eq!(items(&list), vec![1, 2, 3]);
}

#[test]
fn iter_mut_writes_in_place() {
    let mut list = filled(&[1, 2, 3]);
    let mut it: LinkedListIterMut = list.iter_mut();
    while let Some(x) = it.next(&mut list) {
        *x = *x * 10;
    }
    assert_eq!(items(&list), vec![10, 20, 30]);
    assert!(it.next(&mut list).is_none());
}

#[test]
fn iter_mut_can_stop_early() {
    let mut list = filled(&[1, 2, 3]);
    let mut it = list.iter_mut();
    if let Some(x) = it.next(&mut list) {
        *x = 100;
    }
    assert_eq!(items(&list), vec![100, 2, 3]);
}

#[test]
fn many_adds_and_deletes() {
    let mut list: LinkedList<u32> = LinkedList::new();
    let mut model: Vec<u32> = Vec::new();
    for round in 0..200u32 {
        list.add(round % 17);
        model.push(round % 17);
        if round % 3 == 0 {
            let v = (round / 3) % 17;
            let found = list.delete(v);
            let at = model.iter().position(|x| *x == v);
            assert_eq!(found, at.is_some());
            if let Some(i) = at {
                model.remove(i);
            }
        }
        assert_eq!(items(&list), model);
    }
}
