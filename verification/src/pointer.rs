//! The owning handle that an allocation returns.

use crate::allocator::Allocator;
use vstd::prelude::*;

verus! {

/// A handle on one occupied slot.
///
/// It names the arena that issued it by that arena's slot size, the slot by
/// its address, and the number of bytes the value takes. `V` is a capability
/// descriptor that travels with the handle; it never takes part in finding
/// or releasing the slot. The handle cannot be copied, so a slot has one
/// owner, and releasing consumes it.
pub struct Pointer<V> {
    class: usize,
    slot: usize,
    len: usize,
    cap: V,
}

impl<V> Pointer<V> {
    /// Slot size of the arena that issued the handle.
    pub closed spec fn class(&self) -> nat {
        self.class as nat
    }

    /// Address of the slot inside that arena.
    pub closed spec fn addr(&self) -> nat {
        self.slot as nat
    }

    /// Number of bytes of the value.
    pub closed spec fn len(&self) -> nat {
        self.len as nat
    }

    /// The capability descriptor carried along.
    pub closed spec fn capability(&self) -> V {
        self.cap
    }

    /// Whether `self` and `other` name the same bytes of the same slot of
    /// the same arena.
    pub open spec fn same_slot<W>(&self, other: &Pointer<W>) -> bool {
        &&& self.class() == other.class()
        &&& self.addr() == other.addr()
        &&& self.len() == other.len()
    }

    /// Slot size of the arena that issued the handle.
    pub fn slot_size(&self) -> (c: usize)
        ensures
            c == self.class(),
    {
        self.class
    }

    /// Address of the slot inside that arena.
    pub fn address(&self) -> (a: usize)
        ensures
            a == self.addr(),
    {
        self.slot
    }

    /// Number of bytes of the value.
    pub fn size(&self) -> (n: usize)
        ensures
            n == self.len(),
    {
        self.len
    }

    /// The capability descriptor carried along.
    pub fn descriptor(&self) -> (d: &V)
        ensures
            *d == self.capability(),
    {
        &self.cap
    }

    /// Borrows the value behind `ptr` from the allocator that issued it.
    pub fn as_ref<'a>(ptr: &Self, allocator: &'a Allocator) -> (bytes: &'a [u8])
        requires
            allocator.wf(),
            allocator.owns(ptr),
        ensures
            bytes@ == allocator.value(ptr),
    {
        let pool = allocator.pool_for(ptr.class);
        pool.read(ptr.slot, ptr.len)
    }

    /// Lends byte `at` of the value behind `ptr` for writing.
    pub fn as_mut<'a>(ptr: &mut Self, allocator: &'a mut Allocator, at: usize) -> (byte: &'a mut u8)
        requires
            old(allocator).wf(),
            old(allocator).owns(old(ptr)),
            at < old(ptr).len(),
        ensures
            *final(ptr) == *old(ptr),
            *byte == old(allocator).value(old(ptr))[at as int],
            final(allocator).wf(),
            final(allocator).owns(old(ptr)),
            old(allocator).overwrites(final(allocator), old(ptr), at as nat, seq![*final(byte)]),
            final(allocator).value(old(ptr)) == old(allocator).value(old(ptr)).update(
                at as int,
                *final(byte),
            ),
    {
        allocator.byte_mut(ptr, at)
    }

    /// Narrows the handle to the capability `cap`. Only the descriptor
    /// changes: the result owns the slot that `self` owned.
    pub fn narrow<W>(self, cap: W) -> (out: Pointer<W>)
        ensures
            out.same_slot(&self),
            out.capability() == cap,
    {
        Pointer { class: self.class, slot: self.slot, len: self.len, cap }
    }
}

impl Pointer<()> {
    /// The handle on `len` bytes in slot `slot` of the arena of class `class`.
    pub(crate) fn issue(class: usize, slot: usize, len: usize) -> (out: Pointer<()>)
        ensures
            out.class() == class,
            out.addr() == slot,
            out.len() == len,
    {
        Pointer { class, slot, len, cap: () }
    }
}

} // verus!
