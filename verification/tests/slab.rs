use hislab::{HiSlab, StorageError};
use std::sync::atomic::{AtomicUsize, Ordering};
use std::sync::Arc;

static DROP_COUNT: AtomicUsize = AtomicUsize::new(0);

#[derive(Default)]
#[allow(dead_code)]
struct DropCounter(Arc<()>);

impl Drop for DropCounter {
    fn drop(&mut self) {
        DROP_COUNT.fetch_add(1, Ordering::SeqCst);
    }
}

#[test]
fn test_basic_insert_delete() {
    let count = (1 << 18) + 1;
    let mut slab = HiSlab::<u8>::new(0, 1 << 19).expect("can't allocate");

    for i in 0..count {
        let idx = slab.insert((i % 255) as u8);
        if idx != i as u32 {
            panic!("wrong index at {}: got {}", i, idx);
        }
    }
    println!("lvl4: {:08b}", slab.tree().lvl4());

    for i in 0..count {
        assert_eq!(slab.remove(i as u32), Some((i % 255) as u8));
    }
    assert_eq!(slab.tree().lvl4(), 0, "the hierarchy did not go back to zero");
}

#[test]
fn test_stress_lifecycle() {
    let mut slab = HiSlab::<u32>::new(0, 65536).expect("can't allocate");
    let iterations = 10_000;
    let mut indices = Vec::with_capacity(iterations);

    for i in 0..iterations {
        let idx = slab.insert(i as u32 * 10);
        indices.push(idx);
    }
    for (i, &idx) in indices.iter().enumerate() {
        assert_eq!(slab.get(idx), Some(&(i as u32 * 10)));
    }

    for i in (0..iterations).step_by(2) {
        let idx = indices[i];
        slab.remove(idx);
        assert!(slab.get(idx).is_none(), "index {} should be empty", idx);
    }

    for i in (1..iterations).step_by(2) {
        let idx = indices[i];
        assert_eq!(slab.get(idx), Some(&(i as u32 * 10)));
    }

    for _ in 0..1000 {
        let new_val = 999_999;
        let idx = slab.insert(new_val);
        assert!(idx % 2 == 0, "insertion should fill the holes, got {}", idx);
        assert_eq!(slab[idx], new_val);
    }

    let valid_idx = indices[1];
    let _ = slab[valid_idx];
    assert_eq!(*slab.get_unchecked(valid_idx), 1 * 10);
}

#[test]
fn test_iterator_order_and_stability() {
    let mut slab = HiSlab::<&str>::new(0, 65536).expect("can't allocate");

    slab.insert("Rust"); // 0
    slab.insert("is"); // 1
    slab.insert("fast"); // 2

    let mut iter = (&slab).into_iter();
    assert_eq!(iter.next(), Some((0, &"Rust")));
    assert_eq!(iter.next(), Some((1, &"is")));
    assert_eq!(iter.next(), Some((2, &"fast")));
    assert_eq!(iter.next(), None);

    let mut slab2 = HiSlab::<&str>::new(0, 65536).expect("can't allocate");
    slab2.insert("A"); // 0
    let idx_b = slab2.insert("B"); // 1
    slab2.insert("C"); // 2

    slab2.remove(idx_b);

    let mut iter2 = (&slab2).into_iter();
    assert_eq!(iter2.next(), Some((0, &"A")));
    assert_eq!(iter2.next(), Some((2, &"C")));
    assert_eq!(iter2.next(), None);

    slab2.insert("D");

    let mut iter3 = (&slab2).into_iter();
    assert_eq!(iter3.next(), Some((0, &"A")));
    assert_eq!(iter3.next(), Some((1, &"D")));
    assert_eq!(iter3.next(), Some((2, &"C")));
}

#[test]
fn test_iter_mut() {
    let mut slab = HiSlab::<i32>::new(0, 65536).expect("can't allocate");

    slab.insert(10); // 0
    slab.insert(20); // 1
    slab.insert(30); // 2
    slab.remove(1); // a hole at 1

    for (idx, val) in &mut slab {
        *val += idx as i32;
    }

    assert_eq!(slab.get(0), Some(&10)); // 10 + 0
    assert_eq!(slab.get(1), None); // removed
    assert_eq!(slab.get(2), Some(&32)); // 30 + 2
}

#[test]
fn test_into_iter_partial_consumption() {
    DROP_COUNT.store(0, Ordering::SeqCst);

    let mut slab = HiSlab::<DropCounter>::new(0, 65536).expect("can't allocate");
    for _ in 0..10 {
        slab.insert(DropCounter(Arc::new(())));
    }

    let mut iter = slab.into_iter();
    let _ = iter.next();
    let _ = iter.next();
    let _ = iter.next();

    drop(iter);

    assert_eq!(DROP_COUNT.load(Ordering::SeqCst), 10, "values were leaked");
}

#[test]
fn test_empty_slab_iteration() {
    let slab = HiSlab::<i32>::new(0, 65536).expect("can't allocate");

    let mut count = 0;
    for _ in &slab {
        count += 1;
    }
    assert_eq!(count, 0);

    let slab2 = HiSlab::<i32>::new(0, 65536).expect("can't allocate");
    let collected: Vec<_> = slab2.into_iter().collect();
    assert!(collected.is_empty());
}

#[test]
fn test_count_occupied() {
    let mut slab = HiSlab::<i32>::new(0, 65536).expect("can't allocate");

    assert_eq!(slab.count_occupied(), 0);

    for i in 0..500 {
        slab.insert(i);
    }
    assert_eq!(slab.count_occupied(), 500);

    for i in (0..500).step_by(5) {
        slab.remove(i);
    }
    assert_eq!(slab.count_occupied(), 400); // 500 - 100
}

#[test]
fn freed_slots_are_used_again() {
    let mut slab = HiSlab::<i32>::new(1024, 65536).unwrap();
    let idx = slab.insert(42);
    assert_eq!(slab[idx], 42);
    assert_eq!(slab.remove(idx), Some(42));
    assert!(slab.get(idx).is_none());
    assert_eq!(slab.remove(idx), None);
    let idx2 = slab.insert(99);
    assert_eq!(idx2, idx);
}

#[test]
fn the_capacity_can_be_used_up() {
    let mut slab = HiSlab::<u64>::new(2, 5).unwrap();
    for i in 0..5 {
        assert_eq!(slab.insert(i as u64), i);
    }
    assert_eq!(slab.virtual_capacity(), 5);
    assert_eq!(slab.count_occupied(), 5);
    assert_eq!(slab.remove(3), Some(3));
    assert_eq!(slab.insert(30), 3);
    assert_eq!(slab.get(3), Some(&30));
    assert_eq!(slab.get(5), None);
    assert_eq!(slab.get(u32::MAX), None);
}

#[test]
fn values_change_in_place() {
    let mut slab = HiSlab::<String>::new(0, 10).unwrap();
    let a = slab.insert(String::from("a"));
    let b = slab.insert(String::from("b"));
    slab.get_mut(a).unwrap().push('1');
    slab[b].push('2');
    slab.get_unchecked_mut(b).push('3');
    assert_eq!(slab[a], "a1");
    assert_eq!(slab[b], "b23");
    assert!(slab.get_mut(7).is_none());
    let mut seen = Vec::new();
    slab.for_each_occupied(|idx, val| seen.push((idx, val.clone())));
    assert_eq!(seen, vec![(0, String::from("a1")), (1, String::from("b23"))]);
    let listed = slab.entries_at(&vec![1, 0, 1]);
    assert_eq!(listed[0].1, "b23");
    assert_eq!(listed[1], (0, &String::from("a1")));
    assert_eq!(listed.len(), 3);
}

#[derive(Default)]
struct Wide {
    _rows: [[[u64; 32]; 32]; 32],
}

#[test]
fn a_reservation_too_large_is_refused() {
    // 2^32 slots of more than 2^18 bytes each stay below `isize::MAX`, but not
    // below what an address space holds.
    let r = HiSlab::<Wide>::new(0, u32::MAX);
    assert!(matches!(r.err(), Some(StorageError::Reservation)));
    let r = HiSlab::<u8>::from_reservation(Err(StorageError::Reservation), 0, 4);
    assert!(matches!(r.err(), Some(StorageError::Reservation)));
    let r = HiSlab::<u8>::from_reservation(Ok(Vec::new()), 2, 4);
    assert_eq!(r.unwrap().virtual_capacity(), 4);
}

#[test]
fn a_slab_without_slots_is_empty() {
    let slab = HiSlab::<u8>::new(0, 0).unwrap();
    assert_eq!(slab.virtual_capacity(), 0);
    assert_eq!(slab.count_occupied(), 0);
    assert!(!slab.is_occupied(0));
    assert_eq!(slab.into_iter().next(), None);
}

#[test]
fn other_entries_keep_their_place() {
    let mut slab = HiSlab::<u32>::new(0, 2048).unwrap();
    for i in 0..1500 {
        slab.insert(i + 7);
    }
    slab.remove(600);
    slab.insert(1);
    slab.remove(1499);
    for i in 0..1499 {
        let expected = if i == 600 { 1 } else { i + 7 };
        assert_eq!(slab.get(i), Some(&expected));
    }
    assert_eq!(slab.count_occupied(), 1499);
}

#[test]
fn a_removal_takes_an_insertion_back() {
    let mut slab = HiSlab::<char>::new(0, 16).unwrap();
    slab.insert('a');
    slab.insert('b');
    slab.insert('c');
    slab.remove(1);
    let before: Vec<(u32, char)> = slab.iter().map(|(i, v)| (i, *v)).collect();
    let idx = slab.insert('x');
    assert_eq!(idx, 1);
    assert_eq!(slab.remove(idx), Some('x'));
    let after: Vec<(u32, char)> = slab.iter().map(|(i, v)| (i, *v)).collect();
    assert_eq!(before, after);
    assert_eq!(after, vec![(0, 'a'), (2, 'c')]);
}

#[test]
fn the_lowest_hole_is_filled_first() {
    let mut slab = HiSlab::<u32>::new(0, 4096).unwrap();
    for i in 0..1200 {
        slab.insert(i);
    }
    slab.remove(1100);
    slab.remove(513);
    slab.remove(2);
    assert_eq!(slab.insert(0), 2);
    assert_eq!(slab.insert(0), 513);
    assert_eq!(slab.insert(0), 1100);
    assert_eq!(slab.insert(0), 1200);
}

#[test]
fn the_three_iterations_agree() {
    let mut slab = HiSlab::<u32>::new(0, 4096).unwrap();
    for i in 0..1000 {
        slab.insert(i * 2);
    }
    for i in 0..1000 {
        if i % 7 != 5 {
            slab.remove(i);
        }
    }
    let shared: Vec<(u32, u32)> = slab.iter().map(|(i, v)| (i, *v)).collect();
    let lent: Vec<(u32, u32)> = slab.iter_mut().map(|(i, v)| (i, *v)).collect();
    assert_eq!(shared.len(), 143);
    assert_eq!(shared[0], (5, 10));
    assert_eq!(shared[142], (999, 1998));
    assert!(shared.windows(2).all(|w| w[0].0 < w[1].0));
    assert_eq!(shared, lent);
    let moved: Vec<(u32, u32)> = slab.into_iter().collect();
    assert_eq!(shared, moved);
}

#[test]
fn lent_values_outlive_the_step_that_lent_them() {
    let mut slab = HiSlab::<String>::new(0, 8).unwrap();
    slab.insert(String::from("left"));
    slab.insert(String::from("right"));
    let mut it = slab.iter_mut();
    let (_, left) = it.next().unwrap();
    let (_, right) = it.next().unwrap();
    assert!(it.next().is_none());
    std::mem::swap(left, right);
    assert_eq!(slab[0], "right");
    assert_eq!(slab[1], "left");
}

#[test]
fn an_index_is_stable_until_its_value_is_removed() {
    let mut slab = HiSlab::<u32>::new(8, 4096).unwrap();
    for i in 0..5 {
        slab.insert(i);
    }
    let idx = slab.insert(77);
    for i in 0..1500 {
        slab.insert(i);
        if i % 3 == 0 {
            slab.remove(i % 5);
        }
        if i % 4 == 0 {
            slab.remove(idx + 1 + i);
        }
        if let Some(v) = slab.get_mut(idx + 2) {
            *v = i;
        }
        assert_eq!(slab.get(idx), Some(&77));
    }
    assert_eq!(slab.remove(idx), Some(77));
    assert_eq!(slab.get(idx), None);
    assert!(!slab.is_occupied(idx));
}
