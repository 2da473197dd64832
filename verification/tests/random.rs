use hislab::{HiSlab, TaggedHiSlab};
use rand::{Rng, SeedableRng};

#[test]
fn test_random_occupied_basic() {
    let mut rng = rand::rngs::StdRng::seed_from_u64(42);
    let mut slab = HiSlab::<i32>::new(0, 65536).expect("can't allocate");

    assert!(slab.random_occupied(&mut rng).is_none());

    for i in 0..100 {
        slab.insert(i * 10);
    }

    for _ in 0..50 {
        let (idx, val) = slab.random_occupied(&mut rng).unwrap();
        assert_eq!(slab.get(idx), Some(val));
        assert_eq!(*val, idx as i32 * 10);
    }
}

#[test]
fn test_random_occupied_with_holes() {
    let mut rng = rand::rngs::StdRng::seed_from_u64(123);
    let mut slab = HiSlab::<i32>::new(0, 65536).expect("can't allocate");

    for i in 0..100 {
        slab.insert(i);
    }

    for i in (0..100).step_by(2) {
        slab.remove(i);
    }

    for _ in 0..100 {
        let (idx, val) = slab.random_occupied(&mut rng).unwrap();
        assert!(slab.is_occupied(idx));
        assert_eq!(idx % 2, 1, "an odd index is due");
        assert_eq!(*val, idx as i32);
    }
}

#[test]
fn test_random_occupied_many() {
    let mut rng = rand::rngs::StdRng::seed_from_u64(456);
    let mut slab = HiSlab::<i32>::new(0, 65536).expect("can't allocate");

    for i in 0..1000 {
        slab.insert(i);
    }

    let results = slab.random_occupied_many(&mut rng, 50);
    assert_eq!(results.len(), 50);

    for (idx, val) in results {
        assert!(slab.is_occupied(idx));
        assert_eq!(*val, idx as i32);
    }
}

#[test]
fn test_random_occupied_unique() {
    let mut rng = rand::rngs::StdRng::seed_from_u64(789);
    let mut slab = HiSlab::<i32>::new(0, 65536).expect("can't allocate");

    for i in 0..100 {
        slab.insert(i);
    }

    let results = slab.random_occupied_unique(&mut rng, 20);
    assert_eq!(results.len(), 20);

    let mut indices: Vec<u32> = results.iter().map(|(idx, _)| *idx).collect();
    indices.sort();
    indices.dedup();
    assert_eq!(indices.len(), 20, "the indices must differ");
}

#[test]
fn test_random_occupied_unique_overflow() {
    let mut rng = rand::rngs::StdRng::seed_from_u64(999);
    let mut slab = HiSlab::<i32>::new(0, 65536).expect("can't allocate");

    for i in 0..10 {
        slab.insert(i);
    }

    let results = slab.random_occupied_unique(&mut rng, 100);
    assert_eq!(results.len(), 10);
}

#[test]
fn test_random_tagged() {
    let mut rng = rand::rngs::StdRng::seed_from_u64(42);
    let mut slab = TaggedHiSlab::<i32>::new(0, 65536).expect("can't allocate");

    assert!(slab.random_tagged(&mut rng).is_none());

    for i in 0..100 {
        if i % 2 == 1 {
            slab.insert_tagged(i);
        } else {
            slab.insert(i);
        }
    }

    for _ in 0..50 {
        let (idx, val) = slab.random_tagged(&mut rng).unwrap();
        assert!(slab.is_tagged(idx));
        assert_eq!(idx % 2, 1);
        assert_eq!(*val, idx as i32);
    }
}

#[test]
fn test_random_tagged_unique() {
    let mut rng = rand::rngs::StdRng::seed_from_u64(789);
    let mut slab = TaggedHiSlab::<i32>::new(0, 65536).expect("can't allocate");

    for i in 0..50 {
        slab.insert_tagged(i);
    }
    for i in 50..100 {
        slab.insert(i);
    }

    let results = slab.random_tagged_unique(&mut rng, 20);
    assert_eq!(results.len(), 20);

    let mut indices: Vec<u32> = results.iter().map(|(idx, _)| *idx).collect();
    indices.sort();
    indices.dedup();
    assert_eq!(indices.len(), 20);

    for (idx, _) in results {
        assert!(slab.is_tagged(idx));
        assert!(idx < 50);
    }
}

#[test]
fn draws_reach_more_than_one_slot() {
    let mut rng = rand::rngs::StdRng::seed_from_u64(7);
    let mut slab = HiSlab::<u32>::new(0, 4096).expect("can't allocate");
    for i in 0..2000 {
        slab.insert(i);
    }
    let picked: Vec<u32> =
        slab.random_occupied_many(&mut rng, 64).iter().map(|(idx, _)| *idx).collect();
    assert_eq!(picked.len(), 64);
    assert!(picked.iter().any(|&i| i != picked[0]));
    assert!(picked.iter().all(|&i| i < 2000));
}

#[test]
fn a_draw_selects_by_rank() {
    let mut slab = HiSlab::<i32>::new(0, 65536).expect("can't allocate");
    for i in 0..2000 {
        slab.insert(i);
    }
    for i in 0..2000 {
        if i % 700 != 3 {
            slab.remove(i);
        }
    }
    assert_eq!(slab.nth_occupied(0), Some((3, &3)));
    assert_eq!(slab.nth_occupied(1), Some((703, &703)));
    assert_eq!(slab.nth_occupied(2), Some((1403, &1403)));
    assert_eq!(slab.nth_occupied(3), None);
    let mut rng = rand::rngs::StdRng::seed_from_u64(1);
    *slab.random_occupied_mut(&mut rng).unwrap().1 = -1;
    let changed =
        [3u32, 703, 1403].iter().filter(|&&i| slab.get(i) == Some(&-1)).count();
    assert_eq!(changed, 1);
}

#[test]
fn thread_rng_is_a_source_too() {
    let mut rng = rand::thread_rng();
    let mut slab = TaggedHiSlab::<i32>::new(0, 64).expect("can't allocate");
    assert!(slab.random_occupied_mut(&mut rng).is_none());
    assert!(slab.random_tagged_mut(&mut rng).is_none());
    for i in 0..10 {
        slab.insert_tagged(i);
    }
    slab.insert(99);
    let (idx, val) = slab.random_tagged_mut(&mut rng).unwrap();
    assert!(idx < 10);
    *val = 50;
    assert_eq!(slab.get(idx), Some(&50));
    assert_eq!(slab.random_tagged_many(&mut rng, 7).len(), 7);
    assert_eq!(slab.random_occupied_many(&mut rng, 7).len(), 7);
    let all: Vec<u32> =
        slab.random_tagged_unique(&mut rng, 10).iter().map(|(idx, _)| *idx).collect();
    assert_eq!(all, vec![0, 1, 2, 3, 4, 5, 6, 7, 8, 9]);
    assert_eq!(slab.random_occupied_unique(&mut rng, 3).len(), 3);
    assert!(slab.random_occupied(&mut rng).is_some());
}

#[test]
fn many_draws_from_an_empty_slab_give_nothing() {
    let mut rng = rand::rngs::StdRng::seed_from_u64(3);
    let slab = TaggedHiSlab::<i32>::new(0, 64).expect("can't allocate");
    assert_eq!(slab.random_occupied_many(&mut rng, 5).len(), 0);
    assert_eq!(slab.random_tagged_many(&mut rng, 5).len(), 0);
    assert_eq!(slab.random_occupied_unique(&mut rng, 5).len(), 0);
    assert_eq!(slab.random_tagged_unique(&mut rng, 0).len(), 0);
}

#[test]
fn every_choice_has_its_own_member() {
    let mut slab = TaggedHiSlab::<u32>::new(0, 4096).expect("can't allocate");
    for i in 0..1500 {
        if i % 11 == 4 {
            slab.insert_tagged(i);
        } else {
            slab.insert(i);
        }
    }
    let n = slab.count_tagged() as u32;
    assert_eq!(n, 136);
    let reached: Vec<u32> = (0..n).map(|k| slab.nth_tagged(k).unwrap().0).collect();
    let tagged: Vec<u32> = slab.iter_tagged().map(|(i, _)| i).collect();
    assert_eq!(reached, tagged);
    assert_eq!(slab.nth_tagged(n), None);
}

/// Every third of the first 900 slots is tagged.
fn thirds() -> TaggedHiSlab<u32> {
    let mut slab = TaggedHiSlab::<u32>::new(0, 4096).expect("can't allocate");
    for i in 0..900 {
        if i % 3 == 0 {
            slab.insert_tagged(i);
        } else {
            slab.insert(i);
        }
    }
    slab
}

#[test]
fn one_draw_below_the_count_is_the_rank_of_the_pick() {
    let mut slab = thirds();
    let mut rng = rand::rngs::StdRng::seed_from_u64(21);
    let mut twin = rng.clone();

    let c = twin.gen_range(0..900);
    assert_eq!(slab.random_occupied(&mut rng).unwrap().0, c);
    assert_eq!(rng, twin);

    let c = twin.gen_range(0..300);
    assert_eq!(slab.random_tagged(&mut rng).unwrap().0, 3 * c);
    assert_eq!(rng, twin);

    let c = twin.gen_range(0..300);
    assert_eq!(slab.random_tagged_mut(&mut rng).unwrap().0, 3 * c);
    assert_eq!(rng, twin);

    let expected: Vec<u32> = (0..20).map(|_| 3 * twin.gen_range(0..300)).collect();
    let many: Vec<u32> =
        slab.random_tagged_many(&mut rng, 20).iter().map(|(idx, _)| *idx).collect();
    assert_eq!(many, expected);
    assert_eq!(rng, twin);

    let expected: Vec<u32> = (0..20).map(|_| twin.gen_range(0..900)).collect();
    let many: Vec<u32> =
        slab.random_occupied_many(&mut rng, 20).iter().map(|(idx, _)| *idx).collect();
    assert_eq!(many, expected);
    assert_eq!(rng, twin);
}

#[test]
fn a_unique_sample_keeps_first_occurrences() {
    let slab = thirds();
    let mut rng = rand::rngs::StdRng::seed_from_u64(22);
    let mut twin = rng.clone();

    let mut expected: Vec<u32> = Vec::new();
    while expected.len() < 250 {
        let idx = 3 * twin.gen_range(0..300);
        if !expected.contains(&idx) {
            expected.push(idx);
        }
    }
    let sample: Vec<u32> =
        slab.random_tagged_unique(&mut rng, 250).iter().map(|(idx, _)| *idx).collect();
    assert_eq!(sample, expected);
    assert_eq!(rng, twin);

    let mut expected: Vec<u32> = Vec::new();
    while expected.len() < 40 {
        let idx = twin.gen_range(0..900);
        if !expected.contains(&idx) {
            expected.push(idx);
        }
    }
    let sample: Vec<u32> =
        slab.random_occupied_unique(&mut rng, 40).iter().map(|(idx, _)| *idx).collect();
    assert_eq!(sample, expected);
    assert_eq!(rng, twin);
}

#[test]
fn nothing_is_drawn_where_nothing_is_left_to_chance() {
    let mut rng = rand::rngs::StdRng::seed_from_u64(23);
    let twin = rng.clone();
    let mut empty = TaggedHiSlab::<u32>::new(0, 16).expect("can't allocate");
    assert!(empty.random_occupied(&mut rng).is_none());
    assert!(empty.random_occupied_mut(&mut rng).is_none());
    assert!(empty.random_tagged(&mut rng).is_none());
    assert!(empty.random_tagged_mut(&mut rng).is_none());
    assert!(empty.random_occupied_many(&mut rng, 3).is_empty());
    assert!(empty.random_tagged_many(&mut rng, 3).is_empty());
    let slab = thirds();
    assert_eq!(slab.random_occupied_unique(&mut rng, 900).len(), 900);
    assert_eq!(slab.random_tagged_unique(&mut rng, 1000).len(), 300);
    assert_eq!(slab.random_tagged_unique(&mut rng, 0).len(), 0);
    assert_eq!(rng, twin);
}

#[test]
fn shared_and_mutable_picks_agree() {
    let mut slab = HiSlab::<u32>::new(0, 4096).expect("can't allocate");
    for i in 0..700 {
        slab.insert(i);
    }
    let mut rng = rand::rngs::StdRng::seed_from_u64(24);
    let mut twin = rng.clone();
    for _ in 0..30 {
        let shared = slab.random_occupied(&mut rng).unwrap().0;
        let (lent, val) = slab.random_occupied_mut(&mut twin).unwrap();
        assert_eq!(shared, lent);
        *val = 5000;
        assert_eq!(slab.get(lent), Some(&5000));
        assert_eq!(slab.count_occupied(), 700);
        assert_eq!(rng, twin);
    }
}
