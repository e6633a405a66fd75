//! The facade: one pool per size class, and the ladder that picks the class.

use crate::pointer::Pointer;
use crate::pool::{Pool, DEFAULT_POOL_SIZE};
use crate::slots::splice;
use vstd::arithmetic::power2::is_pow2;
use vstd::prelude::*;
use vstd::slice::slice_subrange;

verus! {

/// The largest value, in bytes, that the allocator takes.
pub const MAX_SIZE: usize = 256;

/// Whether `c` is one of the six slot sizes.
pub open spec fn is_class(c: nat) -> bool {
    c == 8 || c == 16 || c == 32 || c == 64 || c == 128 || c == 256
}

/// The smallest slot size that holds `size` bytes.
pub open spec fn class_for(size: nat) -> nat {
    if size <= 8 {
        8
    } else if size <= 16 {
        16
    } else if size <= 32 {
        32
    } else if size <= 64 {
        64
    } else if size <= 128 {
        128
    } else {
        256
    }
}

/// The six slot sizes are powers of two.
pub proof fn lemma_classes_pow2()
    ensures
        forall|c: nat| is_class(c) ==> #[trigger] is_pow2(c as int),
{
    reveal_with_fuel(is_pow2, 10);
}

/// Hands out slots for byte values of up to `MAX_SIZE` bytes.
pub struct Allocator {
    pool8: Pool,
    pool16: Pool,
    pool32: Pool,
    pool64: Pool,
    pool128: Pool,
    pool256: Pool,
}

impl Allocator {
    /// The pool of the class with slot size `class`.
    pub closed spec fn arena(&self, class: nat) -> Pool {
        if class == 8 {
            self.pool8
        } else if class == 16 {
            self.pool16
        } else if class == 32 {
            self.pool32
        } else if class == 64 {
            self.pool64
        } else if class == 128 {
            self.pool128
        } else {
            self.pool256
        }
    }

    /// Whether the pool of `class` is well formed and has `class`-byte slots.
    pub open spec fn class_wf(&self, class: nat) -> bool {
        self.arena(class).wf() && self.arena(class).slot_size() == class
    }

    /// Every class has a well-formed pool of its own slot size.
    pub open spec fn wf(&self) -> bool {
        &&& self.class_wf(8)
        &&& self.class_wf(16)
        &&& self.class_wf(32)
        &&& self.class_wf(64)
        &&& self.class_wf(128)
        &&& self.class_wf(256)
    }

    /// Whether `ptr` names a live slot of this allocator.
    pub open spec fn owns<V>(&self, ptr: &Pointer<V>) -> bool {
        &&& is_class(ptr.class())
        &&& self.arena(ptr.class()).is_live(ptr.addr())
        &&& ptr.len() <= ptr.class()
    }

    /// The value that `ptr` gives access to.
    pub open spec fn value<V>(&self, ptr: &Pointer<V>) -> Seq<u8> {
        self.arena(ptr.class()).slot(ptr.addr()).subrange(0, ptr.len() as int)
    }

    /// Whether the pool of `class` is in `next` what it is in `self`.
    pub open spec fn keeps(&self, next: &Allocator, class: nat) -> bool {
        next.arena(class) == self.arena(class)
    }

    /// Every pool but that of `class` is in `next` what it is in `self`.
    pub open spec fn keeps_others(&self, next: &Allocator, class: nat) -> bool {
        &&& class != 8 ==> self.keeps(next, 8)
        &&& class != 16 ==> self.keeps(next, 16)
        &&& class != 32 ==> self.keeps(next, 32)
        &&& class != 64 ==> self.keeps(next, 64)
        &&& class != 128 ==> self.keeps(next, 128)
        &&& class != 256 ==> self.keeps(next, 256)
    }

    /// `next` is `self` after the allocation of `bytes` that returned `ptr`:
    /// the pool of the smallest class that holds `bytes` handed out one slot
    /// and took the bytes, and no other pool changed.
    pub open spec fn allocates<V>(&self, next: &Allocator, ptr: &Pointer<V>, bytes: Seq<u8>) -> bool {
        &&& ptr.class() == class_for(bytes.len())
        &&& ptr.len() == bytes.len()
        &&& self.arena(ptr.class()).places(&next.arena(ptr.class()), ptr.addr(), bytes)
        &&& self.keeps_others(next, ptr.class())
    }

    /// `next` is `self` after the release of `ptr`: its slot went back to
    /// the head of its pool's free list, and no other pool changed.
    pub open spec fn releases<V>(&self, next: &Allocator, ptr: &Pointer<V>) -> bool {
        &&& self.arena(ptr.class()).recycles(&next.arena(ptr.class()), ptr.addr())
        &&& self.keeps_others(next, ptr.class())
    }

    /// `next` is `self` after `bytes` were written into the value of `ptr`
    /// from offset `at` on.
    pub open spec fn overwrites<V>(
        &self,
        next: &Allocator,
        ptr: &Pointer<V>,
        at: nat,
        bytes: Seq<u8>,
    ) -> bool {
        &&& self.arena(ptr.class()).writes(&next.arena(ptr.class()), ptr.addr(), at, bytes)
        &&& self.keeps_others(next, ptr.class())
    }

    /// Makes an allocator whose pools start with one buffer of
    /// `DEFAULT_POOL_SIZE` bytes each.
    pub fn new() -> (out: Allocator)
        ensures
            out.wf(),
            forall|c: nat|
                is_class(c) ==> (#[trigger] out.arena(c)).is_fresh(
                    (DEFAULT_POOL_SIZE as nat / c) as nat,
                    c,
                ),
    {
        proof {
            lemma_classes_pow2();
            assert(is_class(8) && is_class(16) && is_class(32) && is_class(64) && is_class(128)
                && is_class(256));
        }
        Allocator {
            pool8: Pool::new(8),
            pool16: Pool::new(16),
            pool32: Pool::new(32),
            pool64: Pool::new(64),
            pool128: Pool::new(128),
            pool256: Pool::new(256),
        }
    }

    /// Makes an allocator whose pools hold `cap` slots per buffer.
    pub fn with_capacity(cap: usize) -> (out: Allocator)
        requires
            cap >= 1,
            cap * MAX_SIZE <= usize::MAX,
        ensures
            out.wf(),
            forall|c: nat| is_class(c) ==> (#[trigger] out.arena(c)).is_fresh(cap as nat, c),
    {
        proof {
            lemma_classes_pow2();
            assert(is_class(8) && is_class(16) && is_class(32) && is_class(64) && is_class(128)
                && is_class(256));
        }
        Allocator {
            pool8: Pool::with_capacity(cap, 8),
            pool16: Pool::with_capacity(cap, 16),
            pool32: Pool::with_capacity(cap, 32),
            pool64: Pool::with_capacity(cap, 64),
            pool128: Pool::with_capacity(cap, 128),
            pool256: Pool::with_capacity(cap, 256),
        }
    }

    /// The pool that serves values of `size` bytes.
    pub fn pool_for(&self, size: usize) -> (pool: &Pool)
        ensures
            *pool == self.arena(class_for(size as nat)),
    {
        if size <= 8 {
            &self.pool8
        } else if size <= 16 {
            &self.pool16
        } else if size <= 32 {
            &self.pool32
        } else if size <= 64 {
            &self.pool64
        } else if size <= 128 {
            &self.pool128
        } else {
            &self.pool256
        }
    }

    /// Copies `elem` into a slot of the smallest class that holds it and
    /// returns the handle that owns the slot.
    pub fn allocate(&mut self, elem: &[u8]) -> (ptr: Pointer<()>)
        requires
            old(self).wf(),
            elem@.len() <= MAX_SIZE,
            old(self).arena(class_for(elem@.len())).can_alloc(),
        ensures
            final(self).wf(),
            old(self).allocates(final(self), &ptr, elem@),
            final(self).owns(&ptr),
            final(self).value(&ptr) == elem@,
    {
        let size: usize = elem.len();
        proof {
            assert(is_class(class_for(size as nat)));
        }
        let ptr = if size <= 8 {
            self.pool8.place(elem)
        } else if size <= 16 {
            self.pool16.place(elem)
        } else if size <= 32 {
            self.pool32.place(elem)
        } else if size <= 64 {
            self.pool64.place(elem)
        } else if size <= 128 {
            self.pool128.place(elem)
        } else {
            self.pool256.place(elem)
        };
        ptr
    }

    /// Allocates a value of `size` zero bytes.
    pub fn alloc_default(&mut self, size: usize) -> (ptr: Pointer<()>)
        requires
            old(self).wf(),
            size <= MAX_SIZE,
            old(self).arena(class_for(size as nat)).can_alloc(),
        ensures
            final(self).wf(),
            old(self).allocates(final(self), &ptr, Seq::new(size as nat, |i: int| 0u8)),
            final(self).owns(&ptr),
            final(self).value(&ptr) == Seq::new(size as nat, |i: int| 0u8),
    {
        let zeros: [u8; MAX_SIZE] = [0u8; MAX_SIZE];
        let value = slice_subrange(zeros.as_slice(), 0, size);
        assert(value@ =~= Seq::new(size as nat, |i: int| 0u8));
        self.allocate(value)
    }

    /// Takes the handle back and recycles its slot.
    pub fn release<V>(&mut self, ptr: Pointer<V>)
        requires
            old(self).wf(),
            old(self).owns(&ptr),
        ensures
            final(self).wf(),
            old(self).releases(final(self), &ptr),
    {
        let class: usize = ptr.slot_size();
        let addr: usize = ptr.address();
        if class == 8 {
            self.pool8.recycle(addr);
        } else if class == 16 {
            self.pool16.recycle(addr);
        } else if class == 32 {
            self.pool32.recycle(addr);
        } else if class == 64 {
            self.pool64.recycle(addr);
        } else if class == 128 {
            self.pool128.recycle(addr);
        } else {
            self.pool256.recycle(addr);
        }
    }

    /// Copies `bytes` into the value of `ptr`, from offset `at` on.
    pub fn write<V>(&mut self, ptr: &Pointer<V>, at: usize, bytes: &[u8])
        requires
            old(self).wf(),
            old(self).owns(ptr),
            at + bytes@.len() <= ptr.len(),
        ensures
            final(self).wf(),
            old(self).overwrites(final(self), ptr, at as nat, bytes@),
            final(self).owns(ptr),
            final(self).value(ptr) == splice(old(self).value(ptr), at as int, bytes@),
    {
        let class: usize = ptr.slot_size();
        let addr: usize = ptr.address();
        proof {
            old(self).arena(class as nat).lemma_wf();
        }
        if class == 8 {
            self.pool8.write(addr, at, bytes);
        } else if class == 16 {
            self.pool16.write(addr, at, bytes);
        } else if class == 32 {
            self.pool32.write(addr, at, bytes);
        } else if class == 64 {
            self.pool64.write(addr, at, bytes);
        } else if class == 128 {
            self.pool128.write(addr, at, bytes);
        } else {
            self.pool256.write(addr, at, bytes);
        }
        assert(self.value(ptr) =~= splice(old(self).value(ptr), at as int, bytes@));
    }

    /// Lends byte `at` of the value of `ptr` for writing.
    pub fn byte_mut<V>(&mut self, ptr: &Pointer<V>, at: usize) -> (byte: &mut u8)
        requires
            old(self).wf(),
            old(self).owns(ptr),
            at < ptr.len(),
        ensures
            *byte == old(self).value(ptr)[at as int],
            final(self).wf(),
            final(self).owns(ptr),
            old(self).overwrites(final(self), ptr, at as nat, seq![*final(byte)]),
            final(self).value(ptr) == old(self).value(ptr).update(at as int, *final(byte)),
    {
        let class: usize = ptr.slot_size();
        let addr: usize = ptr.address();
        proof {
            old(self).arena(class as nat).lemma_wf();
            assert forall|s: Seq<u8>, b: u8| at < ptr.len() <= s.len() implies (#[trigger] splice(
                s,
                at as int,
                seq![b],
            )).subrange(0, ptr.len() as int) == s.subrange(0, ptr.len() as int).update(
                at as int,
                b,
            ) by {
                assert(splice(s, at as int, seq![b]).subrange(0, ptr.len() as int)
                    =~= s.subrange(0, ptr.len() as int).update(at as int, b));
            }
        }
        if class == 8 {
            self.pool8.byte_mut(addr, at)
        } else if class == 16 {
            self.pool16.byte_mut(addr, at)
        } else if class == 32 {
            self.pool32.byte_mut(addr, at)
        } else if class == 64 {
            self.pool64.byte_mut(addr, at)
        } else if class == 128 {
            self.pool128.byte_mut(addr, at)
        } else {
            self.pool256.byte_mut(addr, at)
        }
    }
}

} // verus!
