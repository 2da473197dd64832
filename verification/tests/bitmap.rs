use hislab::bit_block::{select_nth_bit_u64, BitBlock};
use hislab::bitmap_tree::{BitCursor, BitmapTree};
use rand::SeedableRng;
use std::collections::HashSet;

#[test]
fn block_finds_its_first_free_bit() {
    let mut block = BitBlock::default();
    assert_eq!(block.find_first_free(), Some(0));
    for i in 0..511 {
        assert!(!block.set_bit_and_check_full(i));
        assert_eq!(block.find_first_free(), Some(i + 1));
    }
    assert!(!block.is_full());
    assert!(block.set_bit_and_check_full(511));
    assert!(block.is_full());
    assert_eq!(block.find_first_free(), None);
    assert_eq!(block.popcnt(), 512);
    assert!(block.clear_bit_and_was_full(130));
    assert!(!block.clear_bit_and_was_full(131));
    assert!(!block.is_set(130));
    assert!(block.is_set(129));
    assert_eq!(block.find_first_free(), Some(130));
    assert_eq!(block.popcnt(), 510);
}

#[test]
fn bits_are_selected_by_rank() {
    assert_eq!(select_nth_bit_u64(0b1011_0100, 0), 2);
    assert_eq!(select_nth_bit_u64(0b1011_0100, 2), 5);
    assert_eq!(select_nth_bit_u64(0b1011_0100, 3), 7);
    assert_eq!(select_nth_bit_u64(u64::MAX, 63), 63);
    let mut block = BitBlock::default();
    for i in [7usize, 64, 300, 511] {
        block.set_bit_and_check_full(i);
    }
    assert_eq!(block.select(0), 7);
    assert_eq!(block.select(1), 64);
    assert_eq!(block.select(2), 300);
    assert_eq!(block.select(3), 511);
}

#[test]
fn tree_hands_out_the_lowest_free_index() {
    let mut tree = BitmapTree::new();
    for i in 0..2000 {
        assert_eq!(tree.reserve_free_idx(), i);
    }
    assert_eq!(tree.find_free_block(), 3);
    tree.clear_bit(1500);
    tree.clear_bit(700);
    assert!(!tree.is_set(700));
    assert_eq!(tree.find_free_idx(), 700);
    assert_eq!(tree.reserve_free_idx(), 700);
    assert_eq!(tree.reserve_free_idx(), 1500);
    assert_eq!(tree.reserve_free_idx(), 2000);
    assert_eq!(tree.count_set(), 2001);
    assert!(!tree.is_exhausted());
}

#[test]
fn tree_accepts_every_u32() {
    let mut tree = BitmapTree::default();
    tree.set_bit(5);
    tree.set_bit(0x3fff_ffff);
    assert!(tree.is_set(0x3fff_ffff));
    assert!(!tree.is_set(u32::MAX));
    tree.clear_bit(u32::MAX);
    tree.ensure_lvl1(9);
    assert_eq!(tree.set_indices(), vec![5, 0x3fff_ffff]);
    let mut seen = Vec::new();
    tree.for_each_set(|i| seen.push(i));
    assert_eq!(seen, vec![5, 0x3fff_ffff]);
    assert_eq!(tree.nth_set(1), Some(0x3fff_ffff));
    assert_eq!(tree.nth_set(2), None);
    assert_eq!(tree.lvl4(), 0);
}

#[test]
fn cursor_goes_on_after_the_end() {
    let mut tree = BitmapTree::new();
    tree.set_bit(63);
    tree.set_bit(64);
    tree.set_bit(512);
    let mut cursor = BitCursor::new(&tree);
    assert_eq!(cursor.next(&tree), Some(63));
    assert_eq!(cursor.next(&tree), Some(64));
    assert_eq!(cursor.next(&tree), Some(512));
    for _ in 0..20 {
        assert_eq!(cursor.next(&tree), None);
    }
}

#[test]
fn draws_on_a_tree() {
    let mut rng = rand::rngs::StdRng::seed_from_u64(11);
    let mut tree = BitmapTree::new();
    assert_eq!(tree.random_set(&mut rng), None);
    for i in 0..300 {
        tree.set_bit(i * 3);
    }
    for _ in 0..100 {
        assert_eq!(tree.random_set(&mut rng).unwrap() % 3, 0);
    }
    let picked = tree.random_set_unique(&mut rng, 299);
    let distinct: HashSet<u32> = picked.iter().copied().collect();
    assert_eq!(distinct.len(), 299);
    assert_eq!(tree.random_set_unique(&mut rng, 300), tree.set_indices());

    let counts = tree.block_counts();
    assert_eq!(counts, vec![171, 129]);
    let mut selected = HashSet::new();
    let mut results = Vec::new();
    assert_eq!(tree.take_draw(&counts, 171, &mut selected, &mut results), 513);
    assert_eq!(tree.take_draw(&counts, 0, &mut selected, &mut results), 0);
    assert_eq!(tree.take_draw(&counts, 171, &mut selected, &mut results), 513);
    assert_eq!(results, vec![513, 0]);
}

#[test]
fn the_summary_byte_starts_and_ends_at_zero() {
    let mut tree = BitmapTree::new();
    assert_eq!(tree.lvl4(), 0);
    for i in 0..600 {
        tree.set_bit(i);
    }
    for i in 0..600 {
        tree.clear_bit(i);
    }
    assert_eq!(tree.lvl4(), 0);
    assert_eq!(tree.count_set(), 0);
    assert_eq!(tree.find_free_idx(), 0);
}

#[test]
fn indices_beyond_the_handed_out_ones_can_be_marked() {
    let mut tree = BitmapTree::new();
    tree.set_bit(0x4000_0000);
    assert!(tree.is_set(0x4000_0000));
    assert_eq!(tree.find_free_idx(), 0);
    assert_eq!(tree.set_indices(), vec![0x4000_0000]);
}

#[test]
fn only_real_changes_change_the_count() {
    let mut tree = BitmapTree::new();
    tree.set_bit(700);
    assert_eq!(tree.count_set(), 1);
    tree.set_bit(700);
    assert_eq!(tree.count_set(), 1);
    tree.set_bit(3);
    assert_eq!(tree.count_set(), 2);
    tree.clear_bit(4);
    assert_eq!(tree.count_set(), 2);
    tree.clear_bit(700);
    assert_eq!(tree.count_set(), 1);
    assert_eq!(tree.block_counts(), vec![1, 0]);
    assert_eq!(tree.find_free_idx(), 0);
    assert_eq!(tree.block_counts().len(), 2);
}
