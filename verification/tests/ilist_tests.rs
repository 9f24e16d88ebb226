use dynlist::ilist::{IList, INode, Node};
use dynlist::raw::Heap;
use std::cell::Cell;
use std::fmt::Display;
use std::rc::Rc;

type Shown = Box<dyn Display>;

fn shown<U: Display + 'static>(val: U) -> Shown {
    Box::new(val)
}

#[test]
fn ilist_smoketest() {
    let mut heap: Heap<Node<Shown>> = Heap::new();
    let list: IList<Shown> = IList::new(&mut heap);

    let node1 = INode::new(&mut heap, shown(1));
    list.push_back(&mut heap, node1);

    let node2 = INode::new(&mut heap, shown(2));
    let node2_too = node2.clone(&mut heap);
    list.push_back(&mut heap, node2_too);

    let node3 = INode::new(&mut heap, shown(3));

    node2.insert_after(&mut heap, node3);

    let node4 = INode::new(&mut heap, shown("I'm a string"));
    node2.insert_before(&mut heap, node4);

    let mut node = list.head(&mut heap).unwrap();
    assert_eq!(node.as_ref(&heap).to_string(), "1");

    node = node.next(&mut heap).unwrap();
    assert_eq!(node.as_ref(&heap).to_string(), "I'm a string");

    node = node.next(&mut heap).unwrap();
    assert_eq!(node.as_ref(&heap).to_string(), "2");

    node = node.next(&mut heap).unwrap();
    assert_eq!(node.as_ref(&heap).to_string(), "3");

    assert!(node.next(&mut heap).is_none());
}

#[test]
fn move_lists() {
    let mut heap: Heap<Node<Shown>> = Heap::new();
    let list1: IList<Shown> = IList::new(&mut heap);

    let node1 = INode::new(&mut heap, shown(1));
    list1.push_back(&mut heap, node1);

    let node2 = INode::new(&mut heap, shown(2));
    let node2_too = node2.clone(&mut heap);
    list1.push_back(&mut heap, node2_too);

    let list2: IList<Shown> = IList::new(&mut heap);

    let node3 = INode::new(&mut heap, shown(3));
    list2.push_back(&mut heap, node3);
    list2.push_back(&mut heap, node2);

    let node = list1.head(&mut heap).unwrap();
    assert_eq!(node.as_ref(&heap).to_string(), "1");

    let mut node = list2.head(&mut heap).unwrap();
    assert_eq!(node.as_ref(&heap).to_string(), "3");

    node = node.next(&mut heap).unwrap();
    assert_eq!(node.as_ref(&heap).to_string(), "2");
}

#[test]
fn moved_node_leaves_its_first_list() {
    let mut heap: Heap<Node<i32>> = Heap::new();
    let list1: IList<i32> = IList::new(&mut heap);
    let list2: IList<i32> = IList::new(&mut heap);

    let node1 = INode::new(&mut heap, 1);
    let keep = node1.clone(&mut heap);
    list1.push_back(&mut heap, node1);
    assert!(!list1.is_empty(&heap));
    assert!(keep.in_list(&heap));

    list2.push_front(&mut heap, keep);
    assert!(list1.is_empty(&heap));
    assert!(list1.head(&mut heap).is_none());
    assert!(list1.tail(&mut heap).is_none());
    let head = list2.head(&mut heap).unwrap();
    assert_eq!(*head.as_ref(&heap), 1);
    assert!(head.next(&mut heap).is_none());
    assert!(head.prev(&mut heap).is_none());
}

#[test]
fn new_list_is_empty() {
    let mut heap: Heap<Node<i32>> = Heap::new();
    let list: IList<i32> = IList::new(&mut heap);
    assert!(list.is_empty(&heap));
    assert!(list.head(&mut heap).is_none());
    assert!(list.tail(&mut heap).is_none());
    let mut it = list.iter(&mut heap);
    assert!(it.next(&mut heap).is_none());
}

#[test]
fn push_front_puts_first() {
    let mut heap: Heap<Node<i32>> = Heap::new();
    let list: IList<i32> = IList::new(&mut heap);
    for v in [1, 2, 3] {
        let n = INode::new(&mut heap, v);
        list.push_front(&mut heap, n);
    }
    let mut seen = Vec::new();
    let mut it = list.iter(&mut heap);
    while let Some(n) = it.next(&mut heap) {
        seen.push(*n.as_ref(&heap));
        n.release(&mut heap);
    }
    assert_eq!(seen, vec![3, 2, 1]);

    let mut back = Vec::new();
    let mut node = list.tail(&mut heap);
    while let Some(n) = node {
        back.push(*n.as_ref(&heap));
        node = n.prev(&mut heap);
        n.release(&mut heap);
    }
    assert_eq!(back, vec![1, 2, 3]);
}

#[test]
fn remove_from_list_detaches() {
    let mut heap: Heap<Node<i32>> = Heap::new();
    let list: IList<i32> = IList::new(&mut heap);
    let a = INode::new(&mut heap, 10);
    let b = INode::new(&mut heap, 20);
    let c = INode::new(&mut heap, 30);
    let a2 = a.clone(&mut heap);
    let b2 = b.clone(&mut heap);
    let c2 = c.clone(&mut heap);
    list.push_back(&mut heap, a2);
    list.push_back(&mut heap, b2);
    list.push_back(&mut heap, c2);
    assert_eq!(b.count(&heap), 2);

    b.remove_from_list(&mut heap);
    assert!(!b.in_list(&heap));
    assert_eq!(b.count(&heap), 1);
    // a second removal changes nothing
    b.remove_from_list(&mut heap);
    assert_eq!(b.count(&heap), 1);

    let after_a = a.next(&mut heap).unwrap();
    assert_eq!(*after_a.as_ref(&heap), 30);
    let before_c = c.prev(&mut heap).unwrap();
    assert_eq!(*before_c.as_ref(&heap), 10);
}

struct Counted {
    drops: Rc<Cell<usize>>,
}

impl Drop for Counted {
    fn drop(&mut self) {
        self.drops.set(self.drops.get() + 1);
    }
}

#[test]
fn shared_node_is_destroyed_once() {
    let drops = Rc::new(Cell::new(0));
    let mut heap: Heap<Node<Counted>> = Heap::new();
    let first = INode::new(&mut heap, Counted { drops: drops.clone() });
    let second = first.clone(&mut heap);
    assert_eq!(second.count(&heap), 2);

    assert!(first.release(&mut heap).is_none());
    assert_eq!(drops.get(), 0);
    assert_eq!(second.count(&heap), 1);

    let last = second.release(&mut heap);
    assert!(last.is_some());
    assert_eq!(drops.get(), 0);
    drop(last);
    assert_eq!(drops.get(), 1);
    assert!(!heap.contains(1));
}

#[test]
fn destroy_frees_the_linked_nodes() {
    let drops = Rc::new(Cell::new(0));
    let mut heap: Heap<Node<Counted>> = Heap::new();
    let list: IList<Counted> = IList::new(&mut heap);
    let a = INode::new(&mut heap, Counted { drops: drops.clone() });
    let b = INode::new(&mut heap, Counted { drops: drops.clone() });
    let kept = b.clone(&mut heap);
    list.push_back(&mut heap, a);
    list.push_back(&mut heap, b);

    list.destroy(&mut heap);
    // the first node had the list as its only owner, the second has a handle left
    assert_eq!(drops.get(), 1);
    assert!(!kept.in_list(&heap));
    assert_eq!(kept.count(&heap), 1);
    drop(kept.release(&mut heap));
    assert_eq!(drops.get(), 2);
}

fn values(list: &IList<i32>, heap: &mut Heap<Node<i32>>) -> Vec<i32> {
    let mut seen = Vec::new();
    let mut it = list.iter(heap);
    while let Some(n) = it.next(heap) {
        seen.push(*n.as_ref(heap));
        n.release(heap);
    }
    seen
}

#[test]
fn insert_next_to_the_ends() {
    let mut heap: Heap<Node<i32>> = Heap::new();
    let list: IList<i32> = IList::new(&mut heap);
    let first = INode::new(&mut heap, 1);
    let last = INode::new(&mut heap, 9);
    let first_too = first.clone(&mut heap);
    let last_too = last.clone(&mut heap);
    list.push_back(&mut heap, first_too);
    list.push_back(&mut heap, last_too);

    let n = INode::new(&mut heap, 0);
    first.insert_before(&mut heap, n);
    let n = INode::new(&mut heap, 10);
    last.insert_after(&mut heap, n);
    let n = INode::new(&mut heap, 5);
    first.insert_after(&mut heap, n);
    assert_eq!(values(&list, &mut heap), vec![0, 1, 5, 9, 10]);

    // a node that is in the list already moves
    let last_again = last.clone(&mut heap);
    first.insert_before(&mut heap, last_again);
    assert_eq!(values(&list, &mut heap), vec![0, 9, 1, 5, 10]);
    assert_eq!(last.count(&heap), 2);
    let first_again = first.clone(&mut heap);
    list.push_back(&mut heap, first_again);
    assert_eq!(values(&list, &mut heap), vec![0, 9, 5, 10, 1]);
    let tail = list.tail(&mut heap).unwrap();
    assert_eq!(*tail.as_ref(&heap), 1);
    assert_eq!(tail.count(&heap), 3);
}

#[test]
fn list_is_empty_again_after_its_only_node_left() {
    let mut heap: Heap<Node<i32>> = Heap::new();
    let list: IList<i32> = IList::new(&mut heap);
    let node = INode::new(&mut heap, 4);
    let node_too = node.clone(&mut heap);
    list.push_front(&mut heap, node_too);
    assert!(!list.is_empty(&heap));
    node.remove_from_list(&mut heap);
    assert!(list.is_empty(&heap));
    assert!(list.head(&mut heap).is_none());
    let node_too = node.clone(&mut heap);
    list.push_back(&mut heap, node_too);
    let other = INode::new(&mut heap, 5);
    list.push_front(&mut heap, other);
    assert_eq!(values(&list, &mut heap), vec![5, 4]);
    list.destroy(&mut heap);
    assert!(!node.in_list(&heap));
    assert_eq!(node.count(&heap), 1);
    assert_eq!(node.release(&mut heap), Some(4));
}

#[test]
fn same_node_tells_handles_apart() {
    let mut heap: Heap<Node<i32>> = Heap::new();
    let a = INode::new(&mut heap, 1);
    let b = INode::new(&mut heap, 1);
    let a_too = a.clone(&mut heap);
    assert!(a.same_node(&a_too));
    assert!(a_too.same_node(&a));
    assert!(!a.same_node(&b));
    assert!(a.next(&mut heap).is_none());
    assert!(a.prev(&mut heap).is_none());
}
