use hislab::buffer_slab::{AutoGuard, BufferSlab};
use hislab::monoio_buffer::{MonoBuffer, MonoioSlabBuffer};
use hislab::StorageError;
use std::cell::RefCell;
use std::rc::Rc;

#[test]
fn buffer_slab_test_allocate_drop_basic() {
    let mut pool = BufferSlab::<4096>::new(4, 4).expect("should allocate");

    let g0 = pool.allocate();
    let g1 = pool.allocate();
    let g2 = pool.allocate();
    let g3 = pool.allocate();

    assert_eq!(g0.index(), 0);
    assert_eq!(g1.index(), 1);
    assert_eq!(g2.index(), 2);
    assert_eq!(g3.index(), 3);

    assert!(pool.try_allocate().is_none());

    g1.release(&mut pool);
    let g1b = pool.allocate();
    assert_eq!(g1b.index(), 1);
}

#[test]
fn test_multiple_guards_simultaneous() {
    let mut pool = BufferSlab::<64>::new(8, 8).expect("should allocate");
    let guards: Vec<AutoGuard<64>> = (0..8).map(|_| pool.allocate()).collect();
    assert!(pool.try_allocate().is_none());
    for guard in guards {
        guard.release(&mut pool);
    }
    assert!(pool.try_allocate().is_some());
}

#[test]
fn test_beyond_initial_capacity() {
    let mut pool = BufferSlab::<64>::new(2, 16).expect("should allocate");
    let guards: Vec<AutoGuard<64>> = (0..16).map(|_| pool.allocate()).collect();
    assert!(pool.try_allocate().is_none());
    for guard in guards {
        guard.release(&mut pool);
    }
}

#[test]
fn test_ptr_alignment() {
    let mut pool = BufferSlab::<4096>::new(4, 4).expect("should allocate");
    let g0 = pool.allocate();
    let g1 = pool.allocate();
    let p0 = g0.as_slice(&pool).as_ptr() as usize;
    let p1 = g1.as_slice(&pool).as_ptr() as usize;
    assert_eq!(p1 - p0, 4096);
}

#[test]
fn test_rw_slice() {
    let mut pool = BufferSlab::<64>::new(2, 2).expect("should allocate");
    let mut g = pool.allocate();
    g.as_slice_mut(&mut pool).fill(0xBE);
    assert!(g.as_slice(&pool).iter().all(|&b| b == 0xBE));
}

#[test]
fn test_virtual_capacity_exhausted() {
    let mut pool = BufferSlab::<64>::new(4, 600).expect("should allocate");
    let guards: Vec<AutoGuard<64>> = (0..600).map(|_| pool.allocate()).collect();
    assert!(pool.try_allocate().is_none());
    for guard in guards {
        guard.release(&mut pool);
    }
    assert!(pool.try_allocate().is_some());
}

#[test]
fn monoio_buffer_test_allocate_drop_basic() {
    let mut pool = MonoioSlabBuffer::<4096>::new(4, 8).unwrap();

    let b0 = pool.allocate();
    let b1 = pool.allocate();
    assert_eq!(b0.index(), 0);
    assert_eq!(b1.index(), 1);
    assert_eq!(b0.initialized_len(), 0);

    b0.release(&mut pool);
    let b0b = pool.allocate();
    assert_eq!(b0b.index(), 0); // the slot is used again
}

#[test]
fn test_exhausted_returns_none() {
    let mut pool = MonoioSlabBuffer::<64>::new(2, 2).unwrap();
    let _b0 = pool.allocate();
    let _b1 = pool.allocate();
    assert!(pool.try_allocate().is_none());
}

#[test]
fn test_set_init_advances_only() {
    let mut pool = MonoioSlabBuffer::<64>::new(1, 4).unwrap();
    let mut buf = pool.allocate();

    buf.set_init(32);
    assert_eq!(buf.initialized_len(), 32);

    // the record cannot go back
    buf.set_init(10);
    assert_eq!(buf.initialized_len(), 32);

    buf.set_init(64);
    assert_eq!(buf.initialized_len(), 64);
}

#[test]
fn test_iobuf_ptrs() {
    let mut pool = MonoioSlabBuffer::<128>::new(1, 4).unwrap();
    let mut buf = pool.allocate();

    let read_ptr = buf.as_slice(&pool).as_ptr() as usize;
    let write_ptr = buf.as_slice_mut(&mut pool).as_ptr() as usize;
    assert_eq!(read_ptr, write_ptr);
    assert_eq!(buf.bytes_total(), 128);
    assert_eq!(buf.bytes_init(), 0);
}

#[test]
fn test_rc_clone_keeps_pool_alive() {
    let b: MonoBuffer<64>;
    let owner: Rc<RefCell<MonoioSlabBuffer<64>>>;
    {
        let pool = Rc::new(RefCell::new(MonoioSlabBuffer::<64>::new(1, 4).unwrap()));
        b = pool.borrow_mut().allocate();
        owner = Rc::clone(&pool);
    }
    assert_eq!(b.index(), 0);
    b.release(&mut owner.borrow_mut());
    assert_eq!(owner.borrow_mut().allocate().index(), 0);
}

#[test]
fn buffers_do_not_share_bytes() {
    let mut pool = BufferSlab::<16>::new(0, 3).expect("should allocate");
    let mut a = pool.allocate();
    let mut b = pool.allocate();
    let mut c = pool.allocate();
    a.as_slice_mut(&mut pool).fill(1);
    c.as_slice_mut(&mut pool).fill(3);
    b.as_slice_mut(&mut pool).fill(2);
    b.as_slice_mut(&mut pool)[15] = 9;
    assert_eq!(a.as_slice(&pool), &[1u8; 16][..]);
    assert_eq!(b.as_slice(&pool)[0..15], [2u8; 15]);
    assert_eq!(b.as_slice(&pool)[15], 9);
    assert_eq!(c.as_slice(&pool), &[3u8; 16][..]);
    assert_eq!(pool.virtual_capacity(), 3);
}

#[test]
fn only_initialised_bytes_are_read() {
    let mut pool = MonoioSlabBuffer::<8>::new(1, 2).unwrap();
    let mut buf = pool.try_allocate().unwrap();
    assert_eq!(buf.as_slice(&pool).len(), 0);
    buf.as_slice_mut(&mut pool).copy_from_slice(&[1, 2, 3, 4, 5, 6, 7, 8]);
    buf.set_init(3);
    assert_eq!(buf.as_slice(&pool), &[1, 2, 3]);
    assert_eq!(buf.as_slice_mut(&mut pool).len(), 8);
}

#[test]
fn a_mapping_too_large_is_refused() {
    let r = BufferSlab::<0x7fff_ffff_ffff>::new(0, 0x1_ffff);
    match r.err() {
        Some(StorageError::Mapping(e)) => assert_eq!(e.kind(), std::io::ErrorKind::InvalidData),
        other => panic!("unexpected outcome {:?}", other),
    }
    let r = MonoioSlabBuffer::<0x7fff_ffff_ffff>::new(0, 0x1_ffff);
    assert!(matches!(r.err(), Some(StorageError::Mapping(_))));
}

#[test]
fn a_pool_without_buffers_is_always_full() {
    let mut pool = BufferSlab::<32>::new(0, 0).expect("should allocate");
    assert!(pool.try_allocate().is_none());
}

#[test]
fn a_full_pool_hands_out_what_it_gets_back() {
    let mut pool = BufferSlab::<8>::new(1, 5).expect("should allocate");
    let mut guards: Vec<AutoGuard<8>> = (0..5).map(|_| pool.allocate()).collect();
    assert!(pool.try_allocate().is_none());
    guards.remove(3).release(&mut pool);
    let next = pool.try_allocate().unwrap();
    assert_eq!(next.index(), 3);
    assert!(guards.iter().all(|g| g.index() != next.index()));
    assert!(pool.try_allocate().is_none());
    pool.free_at(1);
    assert_eq!(pool.allocate().index(), 1);
}

#[test]
fn a_failed_mapping_is_passed_on() {
    let cause = std::io::Error::from_raw_os_error(12);
    let r = MonoioSlabBuffer::<8>::from_pool(BufferSlab::<8>::from_mapping(Err(cause), 0, 4));
    match r.err() {
        Some(StorageError::Mapping(e)) => assert_eq!(e.raw_os_error(), Some(12)),
        other => panic!("unexpected outcome {:?}", other),
    }
}

#[test]
fn ordinary_pages_stand_in_for_huge_ones() {
    let map = hislab::alloc_huge_ref(None).expect("should map");
    assert_eq!(map.len(), 1024 * 1024 * 1024);
    let own = memmap2::MmapMut::map_anon(10).expect("should map");
    let kept = hislab::alloc_huge_ref(Some(own)).expect("given");
    assert_eq!(kept.len(), 10);
}

#[test]
fn the_whole_storage_is_made_of_the_buffers() {
    let mut pool = BufferSlab::<4>::new(0, 3).expect("should allocate");
    let _a = pool.allocate();
    let b = pool.allocate();
    pool.storage_mut().copy_from_slice(&[0, 1, 2, 3, 4, 5, 6, 7, 8, 9, 10, 11]);
    assert_eq!(b.as_slice(&pool), &[4, 5, 6, 7]);
}

#[test]
fn a_position_beyond_the_buffer_is_recorded() {
    let mut pool = MonoioSlabBuffer::<8>::new(0, 1).unwrap();
    let mut buf = pool.allocate();
    buf.set_init(9);
    assert_eq!(buf.initialized_len(), 9);
}

#[test]
fn the_first_buffers_are_faulted_in() {
    assert_eq!(BufferSlab::<4096>::prefault_len(0), 0);
    assert_eq!(BufferSlab::<4096>::prefault_len(3), 12288);
    assert_eq!(BufferSlab::<100>::prefault_len(u32::MAX), 429_496_729_500);
}
