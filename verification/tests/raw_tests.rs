use dynlist::raw::{Heap, Raw};

#[test]
fn xor_twice_gives_the_first_back() {
    let words = [0usize, 1, 2, 0x10, 0xdead_beef, usize::MAX];
    for &a in &words {
        for &b in &words {
            let x = Raw::new(a, b);
            let y = Raw::new(b, a ^ 5);
            let back = x.xor(&y).xor(&y);
            assert_eq!(back.addr, x.addr);
            assert_eq!(back.meta, x.meta);
        }
    }
    let n = Raw::null();
    assert_eq!(Raw::new(6, 3).xor(&Raw::new(5, 1)).addr, 3);
    assert_eq!(Raw::new(6, 3).xor(&Raw::new(5, 1)).meta, 2);
    assert_eq!(n.xor(&n).addr, 0);
}

#[test]
fn equality_looks_at_the_address_only() {
    assert!(Raw::new(4, 0) == Raw::new(4, 9));
    assert!(Raw::new(4, 0) != Raw::new(5, 0));
    assert!(Raw::null().is_null());
    assert!(!Raw::new(1, 0).is_null());
    assert!(Raw::new(0, 7).is_null());
}

#[test]
fn take_empties_the_address() {
    let mut heap: Heap<String> = Heap::new();
    let a = heap.allocate("a".to_string());
    let b = heap.allocate("b".to_string());
    assert!(a != 0 && b != 0 && a != b);
    let mut raw = Raw::new(a, 0);
    assert_eq!(raw.as_ref(&heap).unwrap(), "a");
    assert_eq!(raw.take(&mut heap).unwrap(), "a");
    assert!(raw.is_null());
    assert!(raw.take(&mut heap).is_none());
    assert!(raw.as_ref(&heap).is_none());
    assert!(!heap.contains(a));
    assert_eq!(heap.get(b), "b");
    heap.get_mut(b).push('!');
    assert_eq!(heap.get(b), "b!");
    // a freed address may be handed out again, a live one never
    let c = heap.allocate("c".to_string());
    assert!(c != b && c != 0);
    assert_eq!(heap.deallocate(c), "c");
    assert!(Raw::null().as_ref(&heap).is_none());
    assert!(!heap.is_full());
}

#[test]
fn as_mut_changes_the_node_in_place() {
    let mut heap: Heap<u32> = Heap::new();
    let a = heap.allocate(5);
    let raw = Raw::new(a, 0);
    *raw.as_mut(&mut heap).unwrap() += 1;
    assert_eq!(*heap.get(a), 6);
    assert!(Raw::null().as_mut(&mut heap).is_none());
    assert!(Raw::new(a + 1, 0).as_mut(&mut heap).is_none());
}

#[test]
fn is_sized_tells_thin_from_wide() {
    assert!(dynlist::raw::is_sized::<u32>());
    assert!(dynlist::raw::is_sized::<String>());
    assert!(dynlist::raw::is_sized::<Box<dyn std::fmt::Display>>());
    assert!(!dynlist::raw::is_sized::<str>());
    assert!(!dynlist::raw::is_sized::<[u8]>());
    assert!(!dynlist::raw::is_sized::<dyn std::fmt::Display>());
}
