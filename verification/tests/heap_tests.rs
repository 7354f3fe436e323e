use eight_puzzle::min_heap::MinHeap;

#[test]
fn a_new_heap_is_empty() {
    let mut h: MinHeap<u8> = MinHeap::new();
    assert!(h.is_empty());
    assert_eq!(h.len(), 0);
    assert_eq!(h.pop(), None);
    assert!(h.is_empty());
}

#[test]
fn pop_returns_entries_by_increasing_priority() {
    let mut h: MinHeap<char> = MinHeap::new();
    h.insert('c', 30);
    h.insert('a', 10);
    h.insert('d', 40);
    h.insert('b', 20);
    h.insert('e', 50);
    assert_eq!(h.len(), 5);
    assert!(!h.is_empty());
    assert_eq!(h.pop(), Some(('a', 10)));
    assert_eq!(h.pop(), Some(('b', 20)));
    assert_eq!(h.pop(), Some(('c', 30)));
    assert_eq!(h.pop(), Some(('d', 40)));
    assert_eq!(h.pop(), Some(('e', 50)));
    assert_eq!(h.pop(), None);
}

#[test]
fn the_same_item_may_wait_at_several_priorities() {
    let mut h: MinHeap<u8> = MinHeap::new();
    h.insert(7, 5);
    h.insert(7, 1);
    h.insert(7, 3);
    h.insert(7, 1);
    assert_eq!(h.len(), 4);
    assert_eq!(h.pop(), Some((7, 1)));
    assert_eq!(h.pop(), Some((7, 1)));
    assert_eq!(h.pop(), Some((7, 3)));
    assert_eq!(h.pop(), Some((7, 5)));
    assert_eq!(h.pop(), None);
}

#[test]
fn inserts_and_pops_may_alternate() {
    let mut h: MinHeap<u32> = MinHeap::new();
    h.insert(1, 9);
    h.insert(2, 4);
    assert_eq!(h.pop(), Some((2, 4)));
    h.insert(3, 7);
    h.insert(4, 12);
    h.insert(5, 0);
    assert_eq!(h.pop(), Some((5, 0)));
    assert_eq!(h.pop(), Some((3, 7)));
    h.insert(6, 8);
    assert_eq!(h.pop(), Some((6, 8)));
    assert_eq!(h.pop(), Some((1, 9)));
    assert_eq!(h.pop(), Some((4, 12)));
    assert_eq!(h.pop(), None);
    h.insert(7, u32::MAX);
    h.insert(8, 0);
    assert_eq!(h.pop(), Some((8, 0)));
    assert_eq!(h.pop(), Some((7, u32::MAX)));
}

#[test]
fn pop_is_minimal_over_many_entries() {
    // a fixed pseudo-random stream of priorities, with pops mixed in
    let mut h: MinHeap<usize> = MinHeap::new();
    let mut held: Vec<u32> = Vec::new();
    let mut x: u32 = 12345;
    for step in 0..2000usize {
        x = x.wrapping_mul(1103515245).wrapping_add(12345);
        let priority = (x >> 16) % 500;
        if step % 3 == 2 {
            let least = held.iter().copied().min();
            let got = h.pop().map(|e| e.1);
            assert_eq!(got, least);
            if let Some(p) = least {
                let at = held.iter().position(|q| *q == p).unwrap();
                held.swap_remove(at);
            }
        } else {
            h.insert(step, priority);
            held.push(priority);
        }
        assert_eq!(h.len(), held.len());
    }
    held.sort();
    for p in held {
        assert_eq!(h.pop().map(|e| e.1), Some(p));
    }
    assert!(h.is_empty());
}
