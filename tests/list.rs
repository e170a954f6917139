use sorted_list::{DoublySortedLinkedList, Node};
use std::cmp::Ordering;

fn contents<T: Ord + Default + Clone>(list: &DoublySortedLinkedList<T>) -> Vec<T> {
    list.values().into_iter().cloned().collect()
}

fn filled(values: &[i32]) -> DoublySortedLinkedList<i32> {
    let mut list = DoublySortedLinkedList::new();
    for v in values {
        list.insert(*v);
    }
    list
}

#[test]
fn node_new_has_no_neighbours() {
    let node = Node::new(7);
    assert_eq!(node.value, 7);
    assert!(node.next.is_none());
    assert!(node.prev.is_none());
    assert!(!node.is_helper);
}

#[test]
fn helper_node_is_marked() {
    let node = Node::<i32>::new_helper_node();
    assert!(node.is_helper);
    assert_eq!(node.value, 0);
    assert!(node.next.is_none());
    assert!(node.prev.is_none());
}

#[test]
fn head_and_tail_are_one_sentinel() {
    let list = DoublySortedLinkedList::<i32>::new();
    assert_eq!(list.head, list.tail);
}

#[test]
fn empty_list_has_nothing_and_is_sorted() {
    let list = DoublySortedLinkedList::<i32>::new();
    assert!(list.values().is_empty());
    assert_eq!(list.len(), 0);
    assert!(list.is_sorted());
}

#[test]
fn sequential_inserts_come_out_in_order() {
    let list = filled(&[5, 1, 3]);
    assert_eq!(contents(&list), vec![1, 3, 5]);
    assert!(list.is_sorted());
}

#[test]
fn single_value() {
    let list = filled(&[42]);
    assert_eq!(contents(&list), vec![42]);
    assert!(list.is_sorted());
}

#[test]
fn two_writers_any_interleaving_gives_one_order() {
    let interleavings: [[i32; 6]; 4] = [
        [10, 2, 7, 4, 9, 1],
        [4, 9, 1, 10, 2, 7],
        [10, 4, 2, 9, 7, 1],
        [4, 10, 9, 2, 1, 7],
    ];
    for order in interleavings.iter() {
        let list = filled(order);
        assert_eq!(contents(&list), vec![1, 2, 4, 7, 9, 10]);
        assert!(list.is_sorted());
    }
}

#[test]
fn count_matches_inserts() {
    let values: Vec<i32> = (0..50).map(|i| (i * 37) % 11 - 5).collect();
    let list = filled(&values);
    assert_eq!(list.len(), 50);
    assert_eq!(list.values().len(), 50);
    let mut expected = values.clone();
    expected.sort();
    assert_eq!(contents(&list), expected);
    assert!(list.is_sorted());
}

#[test]
fn duplicates_are_kept_side_by_side() {
    let list = filled(&[3, 1, 3, 2, 3]);
    assert_eq!(contents(&list), vec![1, 2, 3, 3, 3]);
    assert_eq!(list.len(), 5);
    assert!(list.is_sorted());
}

#[test]
fn descending_and_ascending_inputs() {
    assert_eq!(contents(&filled(&[9, 8, 7, 6])), vec![6, 7, 8, 9]);
    assert_eq!(contents(&filled(&[6, 7, 8, 9])), vec![6, 7, 8, 9]);
}

#[test]
fn extreme_values() {
    let list = filled(&[0, i32::MAX, i32::MIN, -1]);
    assert_eq!(contents(&list), vec![i32::MIN, -1, 0, i32::MAX]);
}

#[derive(Clone, Debug, Default)]
struct Keyed {
    key: u32,
    tag: char,
}

impl PartialEq for Keyed {
    fn eq(&self, other: &Self) -> bool {
        self.key == other.key
    }
}

impl Eq for Keyed {}

impl PartialOrd for Keyed {
    fn partial_cmp(&self, other: &Self) -> Option<Ordering> {
        Some(self.cmp(other))
    }
}

impl Ord for Keyed {
    fn cmp(&self, other: &Self) -> Ordering {
        self.key.cmp(&other.key)
    }
}

#[test]
fn equal_values_keep_arrival_order() {
    let mut list = DoublySortedLinkedList::new();
    list.insert(Keyed { key: 2, tag: 'a' });
    list.insert(Keyed { key: 1, tag: 'b' });
    list.insert(Keyed { key: 2, tag: 'c' });
    list.insert(Keyed { key: 2, tag: 'd' });
    list.insert(Keyed { key: 3, tag: 'e' });
    let tags: String = list.values().iter().map(|k| k.tag).collect();
    assert_eq!(tags, "bacde");
    assert!(list.is_sorted());
}

#[test]
fn strings_are_ordered() {
    let mut list = DoublySortedLinkedList::new();
    for w in ["pear", "apple", "fig"] {
        list.insert(w.to_string());
    }
    assert_eq!(contents(&list), vec!["apple", "fig", "pear"]);
}
