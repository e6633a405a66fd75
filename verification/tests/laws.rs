use aren_alloc::{Allocator, Pointer};

fn pattern(len: usize, seed: u8) -> Vec<u8> {
    let mut out = Vec::new();
    for i in 0..len {
        out.push(seed.wrapping_add((i % 251) as u8));
    }
    out
}

#[test]
fn a_value_reads_back_as_given() {
    let mut allocator = Allocator::with_capacity(3);
    let mut handles = Vec::new();
    for len in 0..=256usize {
        let value = pattern(len, len as u8);
        let ptr = allocator.allocate(&value);
        assert_eq!(Pointer::as_ref(&ptr, &allocator), &value[..]);
        assert_eq!(ptr.size(), len);
        handles.push(ptr);
    }
    for (len, ptr) in handles.iter().enumerate() {
        assert_eq!(Pointer::as_ref(ptr, &allocator), &pattern(len, len as u8)[..]);
    }
}

#[test]
fn a_value_goes_to_the_smallest_class_that_holds_it() {
    let mut allocator = Allocator::new();
    let cases: [(usize, usize); 13] = [
        (0, 8),
        (1, 8),
        (8, 8),
        (9, 16),
        (16, 16),
        (17, 32),
        (32, 32),
        (33, 64),
        (64, 64),
        (65, 128),
        (128, 128),
        (129, 256),
        (256, 256),
    ];
    for (len, class) in cases.iter() {
        let ptr = allocator.allocate(&vec![7u8; *len]);
        assert_eq!(ptr.slot_size(), *class);
        assert_eq!(allocator.pool_for(*len).ele_size(), *class);
    }
}

#[test]
fn default_buffers_take_the_same_bytes_in_every_class() {
    let allocator = Allocator::new();
    let cases: [(usize, usize); 6] =
        [(8, 512), (16, 256), (32, 128), (64, 64), (128, 32), (256, 16)];
    for (class, slots) in cases.iter() {
        let pool = allocator.pool_for(*class);
        assert_eq!(pool.ele_size(), *class);
        assert_eq!(pool.buffer_slots(), *slots);
        assert_eq!(pool.buffer_slots() * pool.ele_size(), 4096);
        assert_eq!(pool.chain_len(), 1);
    }
}

#[test]
fn with_capacity_sets_every_class() {
    let allocator = Allocator::with_capacity(5);
    for class in [8usize, 16, 32, 64, 128, 256].iter() {
        let pool = allocator.pool_for(*class);
        assert_eq!(pool.ele_size(), *class);
        assert_eq!(pool.buffer_slots(), 5);
        assert_eq!(pool.chain_len(), 1);
        assert!(pool.has_room());
    }
}

#[test]
fn the_released_slot_is_the_next_one_handed_out() {
    let mut allocator = Allocator::with_capacity(4);
    let a = allocator.allocate(&[1u8; 40]);
    let b = allocator.allocate(&[2u8; 40]);
    let c = allocator.allocate(&[3u8; 40]);
    assert_eq!((a.address(), b.address(), c.address()), (0, 1, 2));
    let freed = b.address();
    allocator.release(b);
    let d = allocator.allocate(&[4u8; 64]);
    assert_eq!(d.address(), freed);
    assert_eq!(d.slot_size(), 64);
    assert_eq!(Pointer::as_ref(&d, &allocator), &[4u8; 64]);
    assert_eq!(Pointer::as_ref(&a, &allocator), &[1u8; 40]);
    assert_eq!(Pointer::as_ref(&c, &allocator), &[3u8; 40]);
    assert_eq!(allocator.pool_for(64).chain_len(), 1);
}

#[test]
fn a_released_slot_serves_one_allocation() {
    let mut allocator = Allocator::with_capacity(4);
    let a = allocator.allocate(&[1u8; 8]);
    let keep = allocator.allocate(&[2u8; 8]);
    let freed = a.address();
    allocator.release(a);
    let first = allocator.allocate(&[3u8; 8]);
    let second = allocator.allocate(&[4u8; 8]);
    assert_eq!(first.address(), freed);
    assert_ne!(second.address(), freed);
    assert_ne!(second.address(), keep.address());
    assert_eq!(Pointer::as_ref(&first, &allocator), &[3u8; 8]);
    assert_eq!(Pointer::as_ref(&second, &allocator), &[4u8; 8]);
    assert_eq!(Pointer::as_ref(&keep, &allocator), &[2u8; 8]);
}

#[test]
fn exhausting_one_class_leaves_the_others_alone() {
    let mut allocator = Allocator::with_capacity(2);
    let wide = allocator.allocate(&[0x55u8; 100]);
    let mut small = Vec::new();
    for i in 0..9u8 {
        small.push(allocator.allocate(&[i; 8]));
    }
    assert_eq!(allocator.pool_for(8).chain_len(), 5);
    for class in [16usize, 32, 64, 256].iter() {
        assert_eq!(allocator.pool_for(*class).chain_len(), 1);
        assert_eq!(allocator.allocate(&vec![1u8; *class]).address(), 0);
    }
    assert_eq!(allocator.pool_for(128).chain_len(), 1);
    assert_eq!(Pointer::as_ref(&wide, &allocator), &[0x55u8; 100]);
    let next_wide = allocator.allocate(&[0x66u8; 128]);
    assert_eq!(next_wide.address(), 1);
    for (i, ptr) in small.iter().enumerate() {
        assert_eq!(ptr.address(), i);
        assert_eq!(Pointer::as_ref(ptr, &allocator), &[i as u8; 8]);
    }
}

#[test]
fn growth_keeps_every_earlier_value() {
    let mut allocator = Allocator::with_capacity(4);
    let mut handles = Vec::new();
    for i in 0..4u8 {
        handles.push(allocator.allocate(&[i; 200]));
    }
    assert_eq!(allocator.pool_for(200).chain_len(), 1);
    let fifth = allocator.allocate(&[4u8; 200]);
    assert_eq!(fifth.address(), 4);
    assert_eq!(allocator.pool_for(200).chain_len(), 2);
    for (i, ptr) in handles.iter().enumerate() {
        assert_eq!(Pointer::as_ref(ptr, &allocator), &[i as u8; 200]);
    }
    assert_eq!(Pointer::as_ref(&fifth, &allocator), &[4u8; 200]);
}

#[test]
fn a_narrowed_handle_releases_the_slot_it_was_given() {
    let mut allocator = Allocator::with_capacity(4);
    let keep = allocator.allocate(&[9u8; 20]);
    let plain = allocator.allocate(&[1u8, 2, 3]);
    let (class, addr, size) = (plain.slot_size(), plain.address(), plain.size());
    let narrowed: Pointer<&str> = plain.narrow("first byte only");
    assert_eq!(narrowed.slot_size(), class);
    assert_eq!(narrowed.address(), addr);
    assert_eq!(narrowed.size(), size);
    assert_eq!(*narrowed.descriptor(), "first byte only");
    assert_eq!(Pointer::as_ref(&narrowed, &allocator), &[1u8, 2, 3]);
    let twice: Pointer<u64> = narrowed.narrow(77);
    assert_eq!(twice.address(), addr);
    allocator.release(twice);
    let next = allocator.allocate(&[4u8; 8]);
    assert_eq!(next.address(), addr);
    assert_eq!(next.slot_size(), class);
    assert_eq!(Pointer::as_ref(&keep, &allocator), &[9u8; 20]);
}

#[test]
fn alloc_default_gives_zero_bytes() {
    let mut allocator = Allocator::with_capacity(2);
    let dirty = allocator.allocate(&[0xffu8; 64]);
    allocator.release(dirty);
    let zeros = allocator.alloc_default(64);
    assert_eq!(zeros.address(), 0);
    assert_eq!(Pointer::as_ref(&zeros, &allocator), &[0u8; 64]);
    let none = allocator.alloc_default(0);
    assert_eq!(none.slot_size(), 8);
    assert_eq!(Pointer::as_ref(&none, &allocator), &[0u8; 0]);
    let most = allocator.alloc_default(256);
    assert_eq!(most.slot_size(), 256);
    assert_eq!(Pointer::as_ref(&most, &allocator), &[0u8; 256]);
}

#[test]
fn a_write_changes_the_bytes_it_covers_and_no_others() {
    let mut allocator = Allocator::with_capacity(2);
    let left = allocator.allocate(&[1u8; 16]);
    let mut mid = allocator.allocate(&[2u8; 16]);
    let right = allocator.allocate(&[3u8; 16]);
    allocator.write(&mid, 4, &[7u8, 8, 9]);
    let want = [2u8, 2, 2, 2, 7, 8, 9, 2, 2, 2, 2, 2, 2, 2, 2, 2];
    assert_eq!(Pointer::as_ref(&mid, &allocator), &want);
    *Pointer::as_mut(&mut mid, &mut allocator, 15) = 0xee;
    assert_eq!(*Pointer::as_mut(&mut mid, &mut allocator, 4), 7);
    assert_eq!(Pointer::as_ref(&mid, &allocator)[15], 0xee);
    assert_eq!(Pointer::as_ref(&left, &allocator), &[1u8; 16]);
    assert_eq!(Pointer::as_ref(&right, &allocator), &[3u8; 16]);
}

#[test]
fn a_short_value_in_a_reused_slot_hides_the_old_bytes() {
    let mut allocator = Allocator::with_capacity(2);
    let long = allocator.allocate(&[0xabu8; 32]);
    allocator.release(long);
    let short = allocator.allocate(&[1u8; 17]);
    assert_eq!(short.address(), 0);
    assert_eq!(short.size(), 17);
    assert_eq!(Pointer::as_ref(&short, &allocator), &[1u8; 17]);
}
