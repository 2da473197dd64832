use hislab::TaggedHiSlab;

#[derive(Default)]
struct Entity {
    _value: i32,
    ttl: u32,
}

#[test]
fn test_insert_tagged_basic() {
    let mut slab = TaggedHiSlab::<i32>::new(0, 65536).expect("can't allocate");

    let idx1 = slab.insert(100);
    assert!(!slab.is_tagged(idx1));

    let idx2 = slab.insert_tagged(200);
    assert!(slab.is_tagged(idx2));

    assert!(slab.is_occupied(idx1));
    assert!(slab.is_occupied(idx2));

    assert_eq!(slab.get(idx1), Some(&100));
    assert_eq!(slab.get(idx2), Some(&200));
}

#[test]
fn test_tag_untag() {
    let mut slab = TaggedHiSlab::<i32>::new(0, 65536).expect("can't allocate");

    let idx = slab.insert(42);
    assert!(!slab.is_tagged(idx));

    assert!(slab.tag(idx));
    assert!(slab.is_tagged(idx));

    assert!(!slab.tag(idx));

    assert!(slab.untag(idx));
    assert!(!slab.is_tagged(idx));

    assert!(!slab.untag(idx));
}

#[test]
fn test_remove_clears_tag() {
    let mut slab = TaggedHiSlab::<i32>::new(0, 65536).expect("can't allocate");

    let idx = slab.insert_tagged(42);
    assert!(slab.is_tagged(idx));

    slab.remove(idx);
    assert!(!slab.is_occupied(idx));
    assert!(!slab.is_tagged(idx));
}

#[test]
fn test_insert_after_tagged_remove() {
    let mut slab = TaggedHiSlab::<i32>::new(0, 65536).expect("can't allocate");

    let idx1 = slab.insert_tagged(100);
    slab.remove(idx1);

    let idx2 = slab.insert(200);
    assert_eq!(idx1, idx2);

    assert!(!slab.is_tagged(idx2));
}

#[test]
fn test_for_each_tagged() {
    let mut slab = TaggedHiSlab::<i32>::new(0, 65536).expect("can't allocate");

    for i in 0..10 {
        let idx = slab.insert(i * 10);
        if i % 2 == 0 {
            slab.tag(idx);
        }
    }

    let mut tagged_values = Vec::new();
    slab.for_each_tagged(|idx, val| {
        tagged_values.push((idx, *val));
    });

    assert_eq!(tagged_values.len(), 5);
    for (idx, val) in tagged_values {
        assert_eq!(idx % 2, 0);
        assert_eq!(val, idx as i32 * 10);
    }
}

#[test]
fn test_count_tagged() {
    let mut slab = TaggedHiSlab::<i32>::new(0, 65536).expect("can't allocate");

    assert_eq!(slab.count_tagged(), 0);

    for i in 0..100 {
        if i % 3 == 0 {
            slab.insert_tagged(i);
        } else {
            slab.insert(i);
        }
    }

    assert_eq!(slab.count_tagged(), 34);

    slab.untag(0);
    slab.untag(3);
    assert_eq!(slab.count_tagged(), 32);
}

#[test]
fn test_iter_tagged() {
    let mut slab = TaggedHiSlab::<i32>::new(0, 65536).expect("can't allocate");

    for i in 0..20 {
        if i % 3 == 0 {
            slab.insert_tagged(i * 10);
        } else {
            slab.insert(i * 10);
        }
    }

    let tagged: Vec<_> = slab.iter_tagged().collect();
    assert_eq!(tagged.len(), 7);

    for (idx, val) in tagged {
        assert_eq!(idx % 3, 0);
        assert_eq!(*val, idx as i32 * 10);
    }
}

#[test]
fn test_iter_tagged_mut() {
    let mut slab = TaggedHiSlab::<i32>::new(0, 65536).expect("can't allocate");

    for i in 0..10 {
        if i % 2 == 0 {
            slab.insert_tagged(i);
        } else {
            slab.insert(i);
        }
    }

    for (_, val) in slab.iter_tagged_mut() {
        *val *= 2;
    }

    assert_eq!(slab.get(0), Some(&0)); // 0 * 2 = 0
    assert_eq!(slab.get(1), Some(&1)); // odd, unchanged
    assert_eq!(slab.get(2), Some(&4)); // 2 * 2 = 4
    assert_eq!(slab.get(3), Some(&3)); // odd, unchanged
    assert_eq!(slab.get(4), Some(&8)); // 4 * 2 = 8
}

#[test]
fn test_retain_tagged() {
    let mut slab = TaggedHiSlab::<i32>::new(0, 65536).expect("can't allocate");

    for i in 0..20 {
        slab.insert_tagged(i);
    }

    slab.retain_tagged(|_idx, val| *val % 5 == 0);

    assert_eq!(slab.get(0), Some(&0));
    assert_eq!(slab.get(1), None);
    assert_eq!(slab.get(2), None);
    assert_eq!(slab.get(5), Some(&5));
    assert_eq!(slab.get(10), Some(&10));
    assert_eq!(slab.get(15), Some(&15));

    let count: usize = slab.iter_tagged().count();
    assert_eq!(count, 4);
}

#[test]
fn test_retain_tagged_ttl_simulation() {
    let mut slab = TaggedHiSlab::<Entity>::new(0, 65536).expect("can't allocate");

    for i in 0..10 {
        slab.insert_tagged(Entity { _value: i, ttl: i as u32 });
    }

    slab.retain_tagged(|_idx, entity| {
        if entity.ttl == 0 {
            false
        } else {
            entity.ttl -= 1;
            true
        }
    });

    assert!(slab.get(0).is_none());

    assert_eq!(slab.get(1).unwrap().ttl, 0);
    assert_eq!(slab.get(5).unwrap().ttl, 4);
}

#[test]
fn test_retain_tag_only() {
    let mut slab = TaggedHiSlab::<i32>::new(0, 65536).expect("can't allocate");

    for i in 0..10 {
        slab.insert_tagged(i);
    }

    slab.retain_tag(|_idx, val| *val % 2 == 0);

    for i in 0..10 {
        assert!(slab.is_occupied(i));
    }

    for i in 0..10 {
        if i % 2 == 0 {
            assert!(slab.is_tagged(i), "index {} should be tagged", i);
        } else {
            assert!(!slab.is_tagged(i), "index {} should not be tagged", i);
        }
    }
}

#[test]
fn retain_tagged_leaves_untagged_entries_alone() {
    let mut slab = TaggedHiSlab::<i32>::new(4, 100).expect("can't allocate");
    for i in 0..6 {
        slab.insert(i);
    }
    slab.tag(1);
    slab.tag(4);
    let mut seen = Vec::new();
    slab.retain_tagged(|idx, val| {
        seen.push(idx);
        *val += 100;
        idx == 4
    });
    assert_eq!(seen, vec![1, 4]);
    assert_eq!(slab.get(0), Some(&0));
    assert_eq!(slab.get(1), None);
    assert_eq!(slab.get(4), Some(&104));
    assert_eq!(slab.get(5), Some(&5));
    assert!(slab.is_tagged(4));
    assert_eq!(slab.count_tagged(), 1);
    assert_eq!(slab.count_occupied(), 5);
}

#[test]
fn retain_tag_changes_values_of_kept_and_dropped_tags() {
    let mut slab = TaggedHiSlab::<i32>::new(0, 100).expect("can't allocate");
    for i in 0..4 {
        slab.insert_tagged(i);
    }
    slab.untag(2);
    slab.retain_tag(|idx, val| {
        *val = -*val;
        idx != 1
    });
    assert_eq!(slab.get(1), Some(&-1));
    assert_eq!(slab.get(2), Some(&2));
    assert_eq!(slab.get(3), Some(&-3));
    assert!(!slab.is_tagged(1));
    assert!(slab.is_tagged(3));
}

#[test]
fn tag_and_untag_refuse_empty_slots() {
    let mut slab = TaggedHiSlab::<i32>::new(0, 8).expect("can't allocate");
    assert!(!slab.tag(3));
    assert!(!slab.untag(3));
    assert!(!slab.is_tagged(3));
    assert!(!slab.is_tagged(u32::MAX));
}

#[test]
fn tagged_access_delegates_to_the_slab() {
    let mut slab = TaggedHiSlab::<i32>::new(0, 8).expect("can't allocate");
    let a = slab.insert_tagged(1);
    let b = slab.insert(2);
    slab[b] += 5;
    *slab.get_mut(a).unwrap() = 9;
    *slab.get_unchecked_mut(a) += 1;
    assert_eq!(slab[a], 10);
    assert_eq!(slab[b], 7);
    assert_eq!(*slab.get_unchecked(b), 7);
    assert!(slab.get_mut(7).is_none());
    let mut seen = Vec::new();
    slab.for_each_occupied(|idx, val| seen.push((idx, *val)));
    assert_eq!(seen, vec![(0, 10), (1, 7)]);
    for (_, val) in &mut slab {
        *val *= 2;
    }
    let shared: Vec<(u32, i32)> = (&slab).into_iter().map(|(i, v)| (i, *v)).collect();
    assert_eq!(shared, vec![(0, 20), (1, 14)]);
    assert_eq!(slab.nth_tagged(0), Some((0, &20)));
    assert_eq!(slab.nth_tagged(1), None);
    let mut it = slab.into_iter();
    assert_eq!(it.next(), Some((0, 20)));
    assert_eq!(it.next(), Some((1, 14)));
    assert_eq!(it.next(), None);
    assert_eq!(it.next(), None);
}

#[test]
fn tags_come_and_go_one_by_one() {
    let mut slab = TaggedHiSlab::<i32>::new(0, 2000).expect("can't allocate");
    for i in 0..1500 {
        slab.insert(i);
    }
    assert!(slab.tag(3));
    assert!(slab.tag(1400));
    assert!(slab.tag(600));
    assert!(slab.untag(600));
    assert!(slab.tag(600));
    let tagged: Vec<u32> = slab.iter_tagged().map(|(i, _)| i).collect();
    assert_eq!(tagged, vec![3, 600, 1400]);
    let lent: Vec<u32> = slab.iter_tagged_mut().map(|(i, _)| i).collect();
    assert_eq!(lent, tagged);
    assert_eq!(slab.remove(600), Some(600));
    assert_eq!(slab.insert(-1), 600);
    assert!(!slab.is_tagged(600));
    assert_eq!(slab.count_tagged(), 2);
    assert_eq!(slab.count_occupied(), 1500);
}

#[test]
fn a_failed_creation_is_passed_on() {
    let r = TaggedHiSlab::<i32>::from_inner(Err(hislab::StorageError::Reservation));
    assert!(matches!(r.err(), Some(hislab::StorageError::Reservation)));
}

#[test]
fn filters_keep_all_or_none_as_told() {
    let mut slab = TaggedHiSlab::<i32>::new(0, 16).expect("can't allocate");
    for i in 0..8 {
        if i % 2 == 0 {
            slab.insert_tagged(i);
        } else {
            slab.insert(i);
        }
    }
    slab.retain_tagged(|_, _| true);
    slab.retain_tag(|_, _| true);
    assert_eq!(slab.count_occupied(), 8);
    assert_eq!(slab.count_tagged(), 4);
    slab.retain_tagged(|_, _| false);
    assert_eq!(slab.count_tagged(), 0);
    let left: Vec<u32> = slab.iter().map(|(i, _)| i).collect();
    assert_eq!(left, vec![1, 3, 5, 7]);
    slab.tag(3);
    slab.retain_tag(|_, _| false);
    assert_eq!(slab.count_tagged(), 0);
    assert_eq!(slab.count_occupied(), 4);
}
