use dynlist::raw::Heap;
use dynlist::xorlist::{Node, XorList};
use std::cell::Cell;
use std::fmt::{Debug, Display};
use std::rc::Rc;

type Shown = Box<dyn Display>;

fn shown<U: Display + 'static>(val: U) -> Shown {
    Box::new(val)
}

#[test]
fn xorlist_smoketest() {
    let mut heap: Heap<Node<Shown>> = Heap::new();
    let mut list: XorList<Shown> = XorList::new();

    list.push_back(&mut heap, shown(1));
    list.push_back(&mut heap, shown(2));
    list.push_back(&mut heap, shown(3));
    list.push_back(&mut heap, shown("None"));
    list.push_back(&mut heap, shown("Some(4)"));

    let el = list.pop_front(&mut heap).unwrap();
    assert_eq!(&el.as_ref().to_string()[..], "1");

    let el = list.pop_front(&mut heap).unwrap();
    assert_eq!(&el.as_ref().to_string()[..], "2");

    let el = list.pop_front(&mut heap).unwrap();
    assert_eq!(&el.as_ref().to_string()[..], "3");

    let el = list.pop_back(&mut heap).unwrap();
    assert_eq!(&el.as_ref().to_string()[..], "Some(4)");

    list.push_back(&mut heap, shown("Some(5)"));

    let el = list.pop_front(&mut heap).unwrap();
    assert_eq!(&el.as_ref().to_string()[..], "None");

    let el = list.pop_front(&mut heap).unwrap();
    assert_eq!(&el.as_ref().to_string()[..], "Some(5)");

    assert!(list.pop_front(&mut heap).is_none());

    assert!(list.is_empty());
}

#[derive(Debug)]
struct DropTest {
    count: Rc<Cell<usize>>,
}

impl DropTest {
    fn new(count: &Rc<Cell<usize>>) -> DropTest {
        count.set(count.get() + 1);
        DropTest { count: count.clone() }
    }
}

impl Drop for DropTest {
    fn drop(&mut self) {
        self.count.set(self.count.get() - 1);
    }
}

#[test]
fn droptest() {
    let count = Rc::new(Cell::new(0));

    {
        let mut heap: Heap<Node<Box<dyn Debug>>> = Heap::new();
        let mut list: XorList<Box<dyn Debug>> = XorList::new();

        list.push_back(&mut heap, Box::new(DropTest::new(&count)));
        list.push_back(&mut heap, Box::new(DropTest::new(&count)));
        list.push_back(&mut heap, Box::new(DropTest::new(&count)));

        assert_eq!(count.get(), 3);
    }

    assert_eq!(count.get(), 0);
}

#[test]
fn iter() {
    let mut heap: Heap<Node<Shown>> = Heap::new();
    let mut list: XorList<Shown> = XorList::new();

    list.push_back(&mut heap, shown(0));
    list.push_back(&mut heap, shown(1));
    list.push_back(&mut heap, shown(2));
    list.push_back(&mut heap, shown(3));
    list.push_back(&mut heap, shown(4));
    list.push_back(&mut heap, shown(5));

    let mut it = list.iter(&heap);
    let mut i = 0;
    while let Some(el) = it.next() {
        assert_eq!(el.to_string(), i.to_string());
        i += 1;
    }
    assert_eq!(i, 6);
}

fn filled(heap: &mut Heap<Node<Shown>>, from: i32, to: i32) -> XorList<Shown> {
    let mut list: XorList<Shown> = XorList::new();
    for v in from..to {
        list.push_back(heap, shown(v));
    }
    list
}

fn drain(list: &mut XorList<Shown>, heap: &mut Heap<Node<Shown>>) -> Vec<String> {
    let mut out = Vec::new();
    while let Some(el) = list.pop_front(heap) {
        out.push(el.as_ref().to_string());
    }
    out
}

fn shown_all(list: &XorList<Shown>, heap: &Heap<Node<Shown>>) -> Vec<String> {
    let mut out = Vec::new();
    let mut it = list.iter(heap);
    while let Some(el) = it.next() {
        out.push(el.to_string());
    }
    out
}

#[test]
fn cursor_basic() {
    let mut heap: Heap<Node<Shown>> = Heap::new();
    let mut list = filled(&mut heap, 0, 6);

    {
        let mut cursor = list.cursor(&heap);
        cursor.remove(&mut list, &mut heap);

        cursor.next(&list, &heap);
        cursor.next(&list, &heap);

        cursor.insert_before(&mut list, &mut heap, shown(6));

        cursor.remove(&mut list, &mut heap);

        cursor.insert_after(&mut list, &mut heap, shown(7));
    }

    let el = list.pop_front(&mut heap).unwrap();
    assert_eq!(&el.as_ref().to_string()[..], "1");

    let el = list.pop_front(&mut heap).unwrap();
    assert_eq!(&el.as_ref().to_string()[..], "2");

    let el = list.pop_front(&mut heap).unwrap();
    assert_eq!(&el.as_ref().to_string()[..], "6");

    let el = list.pop_front(&mut heap).unwrap();
    assert_eq!(&el.as_ref().to_string()[..], "7");

    let el = list.pop_front(&mut heap).unwrap();
    assert_eq!(&el.as_ref().to_string()[..], "4");

    let el = list.pop_front(&mut heap).unwrap();
    assert_eq!(&el.as_ref().to_string()[..], "5");
}

#[test]
fn cursor_splice() {
    let mut heap: Heap<Node<Shown>> = Heap::new();
    let mut list = filled(&mut heap, 0, 4);

    {
        let mut cursor = list.cursor(&heap);

        let other = filled(&mut heap, 4, 8);

        cursor.next(&list, &heap);
        cursor.next(&list, &heap);

        cursor.splice(&mut list, &mut heap, other);
    }

    let el = list.pop_front(&mut heap).unwrap();
    assert_eq!(&el.as_ref().to_string()[..], "0");

    let el = list.pop_front(&mut heap).unwrap();
    assert_eq!(&el.as_ref().to_string()[..], "1");

    let el = list.pop_front(&mut heap).unwrap();
    assert_eq!(&el.as_ref().to_string()[..], "4");

    let el = list.pop_front(&mut heap).unwrap();
    assert_eq!(&el.as_ref().to_string()[..], "5");

    let el = list.pop_front(&mut heap).unwrap();
    assert_eq!(&el.as_ref().to_string()[..], "6");

    let el = list.pop_front(&mut heap).unwrap();
    assert_eq!(&el.as_ref().to_string()[..], "7");

    let el = list.pop_front(&mut heap).unwrap();
    assert_eq!(&el.as_ref().to_string()[..], "2");

    let el = list.pop_front(&mut heap).unwrap();
    assert_eq!(&el.as_ref().to_string()[..], "3");
}

#[test]
fn push_back_then_pop_front_is_first_in_first_out() {
    let mut heap: Heap<Node<Shown>> = Heap::new();
    let mut list = filled(&mut heap, 0, 3);
    assert_eq!(list.pop_front(&mut heap).unwrap().as_ref().to_string(), "0");
    list.push_back(&mut heap, shown(3));
    assert_eq!(drain(&mut list, &mut heap), ["1", "2", "3"]);
    assert!(list.is_empty());
}

#[test]
fn push_front_then_pop_front_is_last_in_first_out() {
    let mut heap: Heap<Node<Shown>> = Heap::new();
    let mut list: XorList<Shown> = XorList::new();
    for v in 0..4 {
        list.push_front(&mut heap, shown(v));
    }
    assert_eq!(list.pop_front(&mut heap).unwrap().as_ref().to_string(), "3");
    list.push_front(&mut heap, shown(9));
    assert_eq!(drain(&mut list, &mut heap), ["9", "2", "1", "0"]);
}

#[test]
fn pop_back_walks_from_the_tail() {
    let mut heap: Heap<Node<Shown>> = Heap::new();
    for len in 0..5 {
        let mut list = filled(&mut heap, 0, len);
        let mut out = Vec::new();
        while let Some(el) = list.pop_back(&mut heap) {
            out.push(el.into_inner().to_string());
        }
        let want: Vec<String> = (0..len).rev().map(|v| v.to_string()).collect();
        assert_eq!(out, want);
        assert!(list.is_empty());
    }
}

#[test]
fn clear_drops_every_element_once() {
    let count = Rc::new(Cell::new(0));
    let mut heap: Heap<Node<Box<dyn Debug>>> = Heap::new();
    let mut list: XorList<Box<dyn Debug>> = XorList::new();
    let mut other: XorList<Box<dyn Debug>> = XorList::new();
    for _ in 0..4 {
        list.push_back(&mut heap, Box::new(DropTest::new(&count)));
    }
    other.push_back(&mut heap, Box::new(DropTest::new(&count)));
    assert_eq!(count.get(), 5);
    list.clear(&mut heap);
    assert!(list.is_empty());
    assert_eq!(count.get(), 1);
    list.clear(&mut heap);
    assert_eq!(count.get(), 1);
    assert!(!other.is_empty());
}

#[test]
fn cursor_comes_back_to_where_it_was() {
    let mut heap: Heap<Node<Shown>> = Heap::new();
    let list = filled(&mut heap, 0, 5);
    let mut cursor = list.cursor(&heap);
    assert!(cursor.at_start());
    assert!(cursor.prev(&list, &heap).is_none());
    assert!(cursor.at_start());
    cursor.next(&list, &heap);
    cursor.next(&list, &heap);
    let start = (cursor.prev_raw(), cursor.curr_raw());
    assert_eq!(cursor.next(&list, &heap).unwrap().to_string(), "2");
    assert_eq!(cursor.next(&list, &heap).unwrap().to_string(), "3");
    assert_eq!(cursor.prev(&list, &heap).unwrap().to_string(), "3");
    assert_eq!(cursor.next(&list, &heap).unwrap().to_string(), "3");
    assert_eq!(cursor.prev(&list, &heap).unwrap().to_string(), "3");
    assert_eq!(cursor.prev(&list, &heap).unwrap().to_string(), "2");
    let back = (cursor.prev_raw(), cursor.curr_raw());
    assert!(start.0 == back.0 && start.1 == back.1);
    assert_eq!(start.0.addr, back.0.addr);
    assert_eq!(start.1.addr, back.1.addr);

    cursor.skip_forwards(&list, &heap, 10);
    assert!(cursor.at_end());
    assert!(cursor.next(&list, &heap).is_none());
    assert!(cursor.at_end());
    assert!(cursor.peek(&list, &heap).is_none());
    cursor.skip_backwards(&list, &heap, 2);
    assert_eq!(cursor.peek(&list, &heap).unwrap().to_string(), "3");
    cursor.skip_backwards(&list, &heap, 10);
    assert!(cursor.at_start());
    cursor.seek_to_end(&list, &heap);
    assert_eq!(cursor.prev(&list, &heap).unwrap().to_string(), "4");
    cursor.seek_to_start(&list, &heap);
    assert_eq!(cursor.peek(&list, &heap).unwrap().to_string(), "0");
}

#[test]
fn splice_at_every_place() {
    for len in 0..4 {
        for other_len in 0..4 {
            for at in 0..=len {
                let mut heap: Heap<Node<Shown>> = Heap::new();
                let mut list = filled(&mut heap, 0, len);
                let other = filled(&mut heap, 10, 10 + other_len);
                let mut cursor = list.cursor(&heap);
                cursor.skip_forwards(&list, &heap, at as usize);
                cursor.splice(&mut list, &mut heap, other);

                let mut want: Vec<String> = (0..at).map(|v| v.to_string()).collect();
                want.extend((10..10 + other_len).map(|v| v.to_string()));
                want.extend((at..len).map(|v| v.to_string()));
                assert_eq!(shown_all(&list, &heap), want);
                if other_len > 0 {
                    assert_eq!(cursor.peek(&list, &heap).unwrap().to_string(), "10");
                }
                // the list is whole from the tail too
                let mut back = Vec::new();
                while let Some(el) = list.pop_back(&mut heap) {
                    back.push(el.as_ref().to_string());
                }
                back.reverse();
                assert_eq!(back, want);
            }
        }
    }
}

#[test]
fn split_at_every_place() {
    for len in 0..5 {
        for at in 0..=len {
            let mut heap: Heap<Node<Shown>> = Heap::new();
            let mut list = filled(&mut heap, 0, len);
            let mut cursor = list.cursor(&heap);
            cursor.skip_forwards(&list, &heap, at as usize);
            let mut rest = cursor.split(&mut list, &mut heap);
            assert!(cursor.at_end());

            let first: Vec<String> = (0..at).map(|v| v.to_string()).collect();
            let second: Vec<String> = (at..len).map(|v| v.to_string()).collect();
            assert_eq!(shown_all(&list, &heap), first);
            assert_eq!(shown_all(&rest, &heap), second);

            let mut back = Vec::new();
            while let Some(el) = rest.pop_back(&mut heap) {
                back.push(el.as_ref().to_string());
            }
            back.reverse();
            assert_eq!(back, second);
            let mut back = Vec::new();
            while let Some(el) = list.pop_back(&mut heap) {
                back.push(el.as_ref().to_string());
            }
            back.reverse();
            assert_eq!(back, first);
        }
    }
}

#[test]
fn insert_and_remove_at_every_place() {
    for len in 0..4 {
        for at in 0..=len {
            let mut heap: Heap<Node<Shown>> = Heap::new();
            let mut list = filled(&mut heap, 0, len);
            let mut cursor = list.cursor(&heap);
            cursor.skip_forwards(&list, &heap, at as usize);
            cursor.insert_before(&mut list, &mut heap, shown("b"));
            cursor.insert_after(&mut list, &mut heap, shown("a"));
            assert_eq!(cursor.peek(&list, &heap).unwrap().to_string(), "a");
            assert_eq!(cursor.prev(&list, &heap).unwrap().to_string(), "b");
            cursor.next(&list, &heap);

            let mut want: Vec<String> = (0..at).map(|v| v.to_string()).collect();
            want.push("b".to_string());
            want.push("a".to_string());
            want.extend((at..len).map(|v| v.to_string()));
            assert_eq!(shown_all(&list, &heap), want);

            let gone = cursor.remove(&mut list, &mut heap).unwrap();
            assert_eq!(gone.as_ref().to_string(), "a");
            cursor.prev(&list, &heap);
            let gone = cursor.remove(&mut list, &mut heap).unwrap();
            assert_eq!(gone.as_ref().to_string(), "b");
            let want: Vec<String> = (0..len).map(|v| v.to_string()).collect();
            assert_eq!(shown_all(&list, &heap), want);
            cursor.seek_to_end(&list, &heap);
            assert!(cursor.remove(&mut list, &mut heap).is_none());
            assert_eq!(shown_all(&list, &heap), want);
        }
    }
}

#[test]
fn iter_mut_changes_elements_in_place() {
    let mut heap: Heap<Node<i32>> = Heap::new();
    let mut list: XorList<i32> = XorList::new();
    for v in 1..5 {
        list.push_back(&mut heap, v);
    }
    let mut it = list.iter_mut(&heap);
    while let Some(el) = it.next(&list, &mut heap) {
        *el *= 10;
    }
    assert!(it.next(&list, &mut heap).is_none());
    let mut seen = Vec::new();
    let mut walk = list.iter(&heap);
    while let Some(el) = walk.next() {
        seen.push(*el);
    }
    assert_eq!(seen, vec![10, 20, 30, 40]);
    assert!(walk.next().is_none());
}

#[test]
fn peek_mut_reaches_the_element_behind_the_cursor() {
    let mut heap: Heap<Node<i32>> = Heap::new();
    let mut list: XorList<i32> = XorList::new();
    for v in 1..4 {
        list.push_back(&mut heap, v);
    }
    let mut cursor = list.cursor(&heap);
    cursor.next(&list, &heap);
    *cursor.peek_mut(&list, &mut heap).unwrap() = 20;
    cursor.seek_to_end(&list, &heap);
    assert!(cursor.peek_mut(&list, &mut heap).is_none());
    let mut out = Vec::new();
    while let Some(mut el) = list.pop_front(&mut heap) {
        *el.as_mut() += 1;
        out.push(el.into_inner());
    }
    assert_eq!(out, vec![2, 21, 4]);
}

#[test]
fn into_iter_takes_from_both_ends() {
    let mut heap: Heap<Node<i32>> = Heap::new();
    let mut list: XorList<i32> = XorList::new();
    for v in 0..5 {
        list.push_back(&mut heap, v);
    }
    let mut it = dynlist::xorlist::IntoIter::new(list);
    assert_eq!(it.next(&mut heap).unwrap().into_inner(), 0);
    assert_eq!(it.next_back(&mut heap).unwrap().into_inner(), 4);
    assert_eq!(it.next_back(&mut heap).unwrap().into_inner(), 3);
    assert_eq!(it.next(&mut heap).unwrap().into_inner(), 1);
    assert_eq!(it.next(&mut heap).unwrap().into_inner(), 2);
    assert!(it.next(&mut heap).is_none());
    assert!(it.next_back(&mut heap).is_none());
}

#[test]
fn freed_addresses_are_used_again() {
    let mut heap: Heap<Node<i32>> = Heap::new();
    let mut list: XorList<i32> = XorList::new();
    let mut other: XorList<i32> = XorList::new();
    for round in 0..3 {
        for v in 0..4 {
            list.push_back(&mut heap, v + round);
            other.push_front(&mut heap, v - round);
        }
        assert_eq!(list.pop_back(&mut heap).unwrap().into_inner(), 3 + round);
        assert_eq!(list.pop_front(&mut heap).unwrap().into_inner(), round);
        list.clear(&mut heap);
    }
    let mut seen = Vec::new();
    let mut walk = other.iter(&heap);
    while let Some(el) = walk.next() {
        seen.push(*el);
    }
    assert_eq!(seen, vec![1, 0, -1, -2, 2, 1, 0, -1, 3, 2, 1, 0]);
}

#[test]
fn skip_stops_at_the_boundary() {
    let mut heap: Heap<Node<Shown>> = Heap::new();
    let list = filled(&mut heap, 0, 3);
    let mut cursor = list.cursor(&heap);
    cursor.skip_forwards(&list, &heap, usize::MAX);
    assert!(cursor.at_end());
    cursor.skip_backwards(&list, &heap, usize::MAX);
    assert!(cursor.at_start());
    cursor.skip_forwards(&list, &heap, 0);
    assert!(cursor.at_start());
    cursor.skip_forwards(&list, &heap, 2);
    assert_eq!(cursor.peek(&list, &heap).unwrap().to_string(), "2");
    cursor.skip_backwards(&list, &heap, 1);
    assert_eq!(cursor.peek(&list, &heap).unwrap().to_string(), "1");
}
