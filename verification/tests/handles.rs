use timer_heap::{Heap, Slot};

/// A small deterministic generator, so that the runs below are repeatable.
fn next(state: &mut u64) -> u64 {
    *state = state.wrapping_mul(6364136223846793005).wrapping_add(1442695040888963407);
    *state >> 33
}

#[test]
fn removal_by_handle_then_pops() {
    let mut h = Heap::new();
    h.push(5);
    h.push(4);
    h.push(3);
    let two = h.push(2);
    h.push(1);
    assert_eq!(h.pop(), Some(1));
    assert_eq!(h.remove(two), 2);
    assert_eq!(h.pop(), Some(3));
    assert_eq!(h.pop(), Some(4));
    assert_eq!(h.pop(), Some(5));
    assert_eq!(h.pop(), None);
}

#[test]
fn emptiness_is_repeatable() {
    let mut h = Heap::<u8>::new();
    for _ in 0..3 {
        assert_eq!(h.peek(), None);
        assert_eq!(h.pop(), None);
    }
    h.push(7);
    assert_eq!(h.peek(), Some(&7));
    assert_eq!(h.peek(), Some(&7));
    assert_eq!(h.pop(), Some(7));
    for _ in 0..3 {
        assert_eq!(h.peek(), None);
        assert_eq!(h.pop(), None);
    }
    assert!(h.assert_consistent());
}

#[test]
fn remove_only_element() {
    let mut h = Heap::new();
    let s = h.push(42);
    assert_eq!(h.remove(s), 42);
    assert_eq!(h.peek(), None);
    assert!(h.assert_consistent());
}

#[test]
fn remove_root_and_last() {
    let mut h = Heap::new();
    let slots: Vec<Slot> = vec![10, 20, 30, 40, 50, 60, 70].into_iter().map(|v| h.push(v)).collect();
    let mut slots = slots.into_iter();
    let root = slots.next().unwrap();
    let last = slots.last().unwrap();
    assert_eq!(h.remove(last), 70);
    assert!(h.assert_consistent());
    assert_eq!(h.remove(root), 10);
    assert!(h.assert_consistent());
    assert_eq!(h.peek(), Some(&20));
    let mut rest = Vec::new();
    while let Some(v) = h.pop() {
        rest.push(v);
    }
    assert_eq!(rest, vec![20, 30, 40, 50, 60]);
}

#[test]
fn removal_that_sifts_up() {
    // The last record, 6, replaces 9 in another branch and has to rise above 8.
    let mut h = Heap::new();
    let mut slots = Vec::new();
    for v in [1, 8, 2, 9, 10, 3, 4, 11, 12, 13, 14, 5, 6] {
        slots.push(Some(h.push(v)));
    }
    assert_eq!(h.remove(slots[3].take().unwrap()), 9);
    assert!(h.assert_consistent());
    let mut rest = Vec::new();
    while let Some(v) = h.pop() {
        rest.push(v);
    }
    assert_eq!(rest, vec![1, 2, 3, 4, 5, 6, 8, 10, 11, 12, 13, 14]);
}

#[test]
fn removal_that_sifts_down() {
    let mut h = Heap::new();
    let mut slots = Vec::new();
    for v in [1, 2, 3, 4, 5, 6, 7, 8, 9] {
        slots.push(Some(h.push(v)));
    }
    assert_eq!(h.remove(slots[1].take().unwrap()), 2);
    assert!(h.assert_consistent());
    assert_eq!(h.remove(slots[0].take().unwrap()), 1);
    assert!(h.assert_consistent());
    let mut rest = Vec::new();
    while let Some(v) = h.pop() {
        rest.push(v);
    }
    assert_eq!(rest, vec![3, 4, 5, 6, 7, 8, 9]);
}

#[test]
fn handles_survive_reordering() {
    let mut h = Heap::new();
    let mut live: Vec<(u64, Slot)> = Vec::new();
    let mut state = 17u64;
    for _ in 0..200 {
        let v = next(&mut state) % 50;
        live.push((v, h.push(v)));
    }
    assert!(h.assert_consistent());
    // Cancel every third element, in an order unrelated to the values.
    let mut kept = Vec::new();
    for (n, (v, slot)) in live.into_iter().enumerate() {
        if n % 3 == 0 {
            assert_eq!(h.remove(slot), v);
            assert!(h.assert_consistent());
        } else {
            kept.push(v);
        }
    }
    kept.sort();
    let mut out = Vec::new();
    while let Some(v) = h.pop() {
        out.push(v);
    }
    assert_eq!(out, kept);
}

#[test]
fn identifiers_are_reused_without_confusion() {
    let mut h = Heap::new();
    let a = h.push(30);
    let b = h.push(10);
    let c = h.push(20);
    assert_eq!(h.remove(b), 10);
    assert_eq!(h.remove(a), 30);
    // The next two insertions take over the identifiers of `a` and `b`.
    let d = h.push(5);
    let e = h.push(40);
    let f = h.push(15);
    assert!(h.assert_consistent());
    assert_eq!(h.remove(e), 40);
    assert_eq!(h.remove(c), 20);
    assert_eq!(h.remove(d), 5);
    assert_eq!(h.remove(f), 15);
    assert_eq!(h.pop(), None);
    assert!(h.assert_consistent());
}

#[test]
fn mixed_run_keeps_the_invariants() {
    let mut h = Heap::new();
    let mut live: Vec<(i64, Slot)> = Vec::new();
    let mut state = 99u64;
    for step in 0..600 {
        match next(&mut state) % 4 {
            0 | 1 => {
                let v = (next(&mut state) % 100) as i64 - 50;
                live.push((v, h.push(v)));
            }
            2 => {
                if !live.is_empty() {
                    let at = (next(&mut state) as usize) % live.len();
                    let (v, slot) = live.swap_remove(at);
                    assert_eq!(h.remove(slot), v);
                }
            }
            _ => {
                // Pop only when the least value is unique, so that the handle
                // that went with it is known.
                if let Some(&min) = live.iter().map(|(v, _)| v).min() {
                    assert_eq!(h.peek(), Some(&min));
                    if live.iter().filter(|(v, _)| *v == min).count() == 1 {
                        let at = live.iter().position(|(v, _)| *v == min).unwrap();
                        live.swap_remove(at);
                        assert_eq!(h.pop(), Some(min));
                    }
                } else {
                    assert_eq!(h.pop(), None);
                }
            }
        }
        if step % 10 == 0 {
            assert!(h.assert_consistent());
        }
    }
    assert!(h.assert_consistent());
}

#[test]
fn sorted_extraction_with_ties() {
    let mut h = Heap::new();
    let vals = [3u32, 1, 3, 1, 2, 2, 3, 1, 0, 0];
    for v in vals {
        h.push(v);
    }
    let mut out = Vec::new();
    for _ in 0..vals.len() {
        out.push(h.pop().unwrap());
    }
    assert_eq!(out, vec![0, 0, 1, 1, 1, 2, 2, 3, 3, 3]);
    assert_eq!(h.pop(), None);
}

#[test]
fn round_trip_of_random_multisets() {
    let mut state = 5u64;
    for round in 0..40usize {
        let mut vals: Vec<u64> = (0..round * 3).map(|_| next(&mut state) % 20).collect();
        let mut h = Heap::new();
        for v in vals.iter() {
            h.push(*v);
        }
        assert!(h.assert_consistent());
        let mut out = Vec::new();
        while let Some(v) = h.pop() {
            out.push(v);
        }
        vals.sort();
        assert_eq!(out, vals);
    }
}

#[test]
fn orders_by_the_type_own_order() {
    let mut h = Heap::new();
    h.push((2, "b".to_string()));
    h.push((1, "z".to_string()));
    h.push((1, "a".to_string()));
    assert_eq!(h.pop(), Some((1, "a".to_string())));
    assert_eq!(h.pop(), Some((1, "z".to_string())));
    assert_eq!(h.pop(), Some((2, "b".to_string())));
}
