use aren_alloc::Pool;

#[test]
fn fresh_pool_hands_out_addresses_in_order() {
    let mut pool = Pool::with_capacity(4, 16);
    assert_eq!(pool.ele_size(), 16);
    assert_eq!(pool.buffer_slots(), 4);
    assert_eq!(pool.chain_len(), 1);
    for want in 0..4usize {
        let ptr = pool.allocate(16);
        assert_eq!(ptr.address(), want);
        assert_eq!(ptr.slot_size(), 16);
        assert_eq!(ptr.size(), 16);
    }
    assert_eq!(pool.chain_len(), 1);
}

#[test]
fn exhausted_pool_grows_by_one_buffer() {
    let mut pool = Pool::with_capacity(4, 16);
    for _ in 0..4 {
        pool.allocate(1);
    }
    assert!(pool.has_room());
    let fifth = pool.allocate(1);
    assert_eq!(fifth.address(), 4);
    assert_eq!(pool.chain_len(), 2);
    for want in 5..8usize {
        assert_eq!(pool.allocate(1).address(), want);
    }
    assert_eq!(pool.chain_len(), 2);
    assert_eq!(pool.allocate(1).address(), 8);
    assert_eq!(pool.chain_len(), 3);
}

#[test]
fn pool_of_one_slot_grows_on_every_allocation() {
    let mut pool = Pool::with_capacity(1, 8);
    assert_eq!(pool.allocate(8).address(), 0);
    assert_eq!(pool.allocate(8).address(), 1);
    assert_eq!(pool.allocate(8).address(), 2);
    assert_eq!(pool.chain_len(), 3);
}

#[test]
fn default_pool_takes_one_page() {
    let pool = Pool::new(32);
    assert_eq!(pool.ele_size(), 32);
    assert_eq!(pool.buffer_slots(), 128);
    assert_eq!(pool.chain_len(), 1);
    let mut small = Pool::new(8);
    assert_eq!(small.buffer_slots(), 512);
    for want in 0..512usize {
        assert_eq!(small.allocate(8).address(), want);
    }
    assert_eq!(small.chain_len(), 1);
    assert_eq!(small.allocate(8).address(), 512);
    assert_eq!(small.chain_len(), 2);
    let page = Pool::new(4096);
    assert_eq!(page.buffer_slots(), 1);
}

#[test]
fn recycled_slots_come_back_last_in_first_out() {
    let mut pool = Pool::with_capacity(4, 8);
    let a = pool.allocate(8);
    let b = pool.allocate(8);
    let c = pool.allocate(8);
    assert_eq!((a.address(), b.address(), c.address()), (0, 1, 2));
    pool.recycle(b.address());
    pool.recycle(a.address());
    assert_eq!(pool.allocate(8).address(), 0);
    assert_eq!(pool.allocate(8).address(), 1);
    assert_eq!(pool.allocate(8).address(), 3);
    pool.recycle(c.address());
    assert_eq!(pool.allocate(8).address(), 2);
    assert_eq!(pool.chain_len(), 1);
}

#[test]
fn recycled_slot_of_an_old_buffer_is_reused_before_the_new_buffer() {
    let mut pool = Pool::with_capacity(2, 8);
    let first = pool.allocate(8);
    pool.allocate(8);
    assert_eq!(pool.allocate(8).address(), 2);
    pool.recycle(first.address());
    assert_eq!(pool.allocate(8).address(), 0);
    assert_eq!(pool.allocate(8).address(), 3);
    assert_eq!(pool.chain_len(), 2);
}

#[test]
fn recycling_everything_empties_nothing_else() {
    let mut pool = Pool::with_capacity(3, 8);
    let mut taken = Vec::new();
    for _ in 0..7 {
        taken.push(pool.allocate(8).address());
    }
    assert_eq!(taken, vec![0, 1, 2, 3, 4, 5, 6]);
    assert_eq!(pool.chain_len(), 3);
    for addr in taken.iter() {
        pool.recycle(*addr);
    }
    let mut again = Vec::new();
    for _ in 0..9 {
        again.push(pool.allocate(8).address());
    }
    assert_eq!(again, vec![6, 5, 4, 3, 2, 1, 0, 7, 8]);
    assert_eq!(pool.chain_len(), 3);
}

#[test]
fn place_write_and_read() {
    let mut pool = Pool::with_capacity(2, 8);
    let ptr = pool.place(b"hello");
    assert_eq!(ptr.address(), 0);
    assert_eq!(ptr.size(), 5);
    assert_eq!(pool.read(ptr.address(), ptr.size()), b"hello");
    pool.write(ptr.address(), 1, b"EY");
    assert_eq!(pool.read(ptr.address(), ptr.size()), b"hEYlo");
    pool.write(ptr.address(), 5, b"");
    assert_eq!(pool.read(ptr.address(), 5), b"hEYlo");
    *pool.byte_mut(ptr.address(), 4) = b'!';
    assert_eq!(pool.read(ptr.address(), 5), b"hEYl!");
    assert_eq!(pool.read(ptr.address(), 0), b"");
}

#[test]
fn a_full_slot_keeps_its_neighbours() {
    let mut pool = Pool::with_capacity(3, 8);
    let a = pool.place(&[1u8; 8]);
    let b = pool.place(&[2u8; 8]);
    let c = pool.place(&[3u8; 8]);
    pool.write(b.address(), 0, &[9u8; 8]);
    assert_eq!(pool.read(a.address(), 8), &[1u8; 8]);
    assert_eq!(pool.read(b.address(), 8), &[9u8; 8]);
    assert_eq!(pool.read(c.address(), 8), &[3u8; 8]);
}

#[test]
fn growth_keeps_the_values_of_earlier_buffers() {
    let mut pool = Pool::with_capacity(2, 16);
    let mut handles = Vec::new();
    for i in 0..7u8 {
        handles.push(pool.place(&[i; 11]));
    }
    assert_eq!(pool.chain_len(), 4);
    for (i, ptr) in handles.iter().enumerate() {
        assert_eq!(ptr.address(), i);
        assert_eq!(pool.read(ptr.address(), ptr.size()), &[i as u8; 11]);
    }
}

#[test]
fn recycling_leaves_live_values_alone() {
    let mut pool = Pool::with_capacity(4, 8);
    let a = pool.place(&[0xaa; 8]);
    let b = pool.place(&[0xbb; 8]);
    let c = pool.place(&[0xcc; 8]);
    pool.recycle(b.address());
    assert_eq!(pool.read(a.address(), 8), &[0xaa; 8]);
    assert_eq!(pool.read(c.address(), 8), &[0xcc; 8]);
    let d = pool.place(&[0xdd; 3]);
    assert_eq!(d.address(), b.address());
    assert_eq!(pool.read(d.address(), 3), &[0xdd; 3]);
    assert_eq!(pool.read(a.address(), 8), &[0xaa; 8]);
    assert_eq!(pool.read(c.address(), 8), &[0xcc; 8]);
}

#[test]
fn extend_does_nothing_while_slots_are_free() {
    let mut pool = Pool::with_capacity(2, 8);
    pool.extend();
    assert_eq!(pool.chain_len(), 1);
    pool.allocate(8);
    pool.extend();
    assert_eq!(pool.chain_len(), 1);
    pool.allocate(8);
    pool.extend();
    assert_eq!(pool.chain_len(), 2);
    pool.extend();
    assert_eq!(pool.chain_len(), 2);
    assert_eq!(pool.allocate(8).address(), 2);
}
