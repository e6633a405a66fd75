//! What holds of every run of allocations, writes and releases, stated over
//! the transitions that the pool and the allocator promise.

use crate::allocator::{class_for, is_class, Allocator};
use crate::pointer::Pointer;
use crate::pool::Pool;
use crate::slots::splice;
use vstd::prelude::*;

verus! {

/// Reuse is last in, first out: the allocation that follows a recycling
/// hands out the recycled slot, without growth, and leaves the free list as
/// it was before the recycling.
pub proof fn lemma_reuse_is_lifo(s0: Pool, s1: Pool, s2: Pool, a: nat, b: nat)
    requires
        s0.recycles(&s1, a),
        s1.allocates(&s2, b),
    ensures
        b == a,
        s2.free_list() == s0.free_list(),
        s2.buffers() == s0.buffers(),
{
    assert(s1.free_list()[0] == a);
    assert(s2.free_list() =~= s0.free_list());
}

/// A recycled slot stands on the free list once, at its head, and is no
/// longer live. The other slots are live exactly if they were.
pub proof fn lemma_recycled_once(s0: Pool, s1: Pool, a: nat)
    requires
        s0.wf(),
        s0.is_live(a),
        s0.recycles(&s1, a),
    ensures
        s1.free_list()[0] == a,
        !s1.free_list().skip(1).contains(a),
        !s1.is_live(a),
        forall|b: nat| b != a ==> (s1.is_live(b) <==> s0.is_live(b)),
{
    let before = s0.free_list();
    let after = s1.free_list();
    assert(after.skip(1) =~= before);
    assert(after[0] == a);
    assert forall|b: nat| b != a implies (s1.is_live(b) <==> s0.is_live(b)) by {
        if before.contains(b) {
            let k = choose|k: int| 0 <= k < before.len() && before[k] == b;
            assert(after[k + 1] == b);
        }
        if after.contains(b) {
            let k = choose|k: int| 0 <= k < after.len() && after[k] == b;
            assert(before[k - 1] == b);
        }
    }
}

/// A released slot serves one allocation: the next one hands it out, and
/// the one after that hands out another slot.
pub proof fn lemma_released_slot_serves_once(
    s0: Pool,
    s1: Pool,
    s2: Pool,
    s3: Pool,
    a: nat,
    b: nat,
    c: nat,
)
    requires
        s0.wf(),
        s2.wf(),
        s0.is_live(a),
        s0.recycles(&s1, a),
        s1.allocates(&s2, b),
        s2.allocates(&s3, c),
    ensures
        b == a,
        s2.is_live(a),
        c != a,
{
    lemma_reuse_is_lifo(s0, s1, s2, a, b);
    s2.lemma_pops_fresh(&s3, c);
}

/// An allocation touches one class only: the pool of every other class is
/// what it was, and so is what that pool can still serve.
pub proof fn lemma_allocate_is_isolated<V>(
    s0: Allocator,
    s1: Allocator,
    ptr: Pointer<V>,
    bytes: Seq<u8>,
    class: nat,
)
    requires
        s0.allocates(&s1, &ptr, bytes),
        is_class(class),
        class != ptr.class(),
    ensures
        s1.arena(class) == s0.arena(class),
        s1.arena(class).can_alloc() == s0.arena(class).can_alloc(),
{
}

/// An allocation leaves every handle that was good before it good, on
/// another slot than the new one, and with its value unchanged. This holds
/// whether the slot came from the free list or from a new buffer.
pub proof fn lemma_allocate_keeps_values<V, W>(
    s0: Allocator,
    s1: Allocator,
    ptr: Pointer<V>,
    bytes: Seq<u8>,
    other: Pointer<W>,
)
    requires
        s0.wf(),
        s0.allocates(&s1, &ptr, bytes),
        s0.owns(&other),
    ensures
        s1.owns(&other),
        s1.value(&other) == s0.value(&other),
        other.class() != ptr.class() || other.addr() != ptr.addr(),
{
    if other.class() == ptr.class() {
        let a0 = s0.arena(ptr.class());
        let a1 = s1.arena(ptr.class());
        a0.lemma_pops_fresh(&a1, ptr.addr());
        assert(a1.slot(other.addr()) == a0.slot(other.addr()));
    }
}

/// With the free list of a class empty, an allocation in that class adds
/// one buffer to its chain and hands out that buffer's first slot.
pub proof fn lemma_growth_adds_a_buffer<V>(
    s0: Allocator,
    s1: Allocator,
    ptr: Pointer<V>,
    bytes: Seq<u8>,
)
    requires
        s0.allocates(&s1, &ptr, bytes),
        s0.arena(ptr.class()).free_list().len() == 0,
    ensures
        s1.arena(ptr.class()).buffers() == s0.arena(ptr.class()).buffers() + 1,
        ptr.addr() == s0.arena(ptr.class()).slots(),
{
}

/// A release leaves every other good handle good and its value unchanged.
pub proof fn lemma_release_keeps_values<V, W>(
    s0: Allocator,
    s1: Allocator,
    ptr: Pointer<V>,
    other: Pointer<W>,
)
    requires
        s0.wf(),
        s0.owns(&ptr),
        s0.releases(&s1, &ptr),
        s0.owns(&other),
        other.class() != ptr.class() || other.addr() != ptr.addr(),
    ensures
        s1.owns(&other),
        s1.value(&other) == s0.value(&other),
{
    if other.class() == ptr.class() {
        let a0 = s0.arena(ptr.class());
        let a1 = s1.arena(ptr.class());
        lemma_recycled_once(a0, a1, ptr.addr());
        assert(a1.slot(other.addr()) == a0.slot(other.addr()));
        assert(a1.slots() == a0.slots());
    }
}

/// A write through one handle leaves the value of every other good handle
/// unchanged.
pub proof fn lemma_write_keeps_values<V, W>(
    s0: Allocator,
    s1: Allocator,
    ptr: Pointer<V>,
    at: nat,
    bytes: Seq<u8>,
    other: Pointer<W>,
)
    requires
        s0.overwrites(&s1, &ptr, at, bytes),
        s0.owns(&other),
        other.class() != ptr.class() || other.addr() != ptr.addr(),
    ensures
        s1.owns(&other),
        s1.value(&other) == s0.value(&other),
{
    if other.class() == ptr.class() {
        let a0 = s0.arena(ptr.class());
        let a1 = s1.arena(ptr.class());
        assert(a1.slot(other.addr()) == a0.slot(other.addr()));
        assert(a1.slots() == a0.slots());
    }
}

/// The value read right after an allocation is the value that was given.
pub proof fn lemma_allocated_value<V>(
    s0: Allocator,
    s1: Allocator,
    ptr: Pointer<V>,
    bytes: Seq<u8>,
)
    requires
        s0.allocates(&s1, &ptr, bytes),
    ensures
        s1.value(&ptr) == bytes,
{
}

/// Narrowing keeps identity: a handle and any handle on the same slot give
/// the same value and release the same slot into the same pool.
pub proof fn lemma_narrowing_keeps_identity<V, W>(
    s0: Allocator,
    s1: Allocator,
    ptr: Pointer<V>,
    narrowed: Pointer<W>,
)
    requires
        narrowed.same_slot(&ptr),
    ensures
        s0.owns(&narrowed) == s0.owns(&ptr),
        s0.value(&narrowed) == s0.value(&ptr),
        s0.releases(&s1, &narrowed) == s0.releases(&s1, &ptr),
{
}

/// Releasing a handle and then allocating a value of the same class gives
/// a handle on the slot that was released.
pub proof fn lemma_release_then_allocate<V, W>(
    s0: Allocator,
    s1: Allocator,
    s2: Allocator,
    released: Pointer<V>,
    ptr: Pointer<W>,
    bytes: Seq<u8>,
)
    requires
        s0.releases(&s1, &released),
        s1.allocates(&s2, &ptr, bytes),
        class_for(bytes.len()) == released.class(),
    ensures
        ptr.class() == released.class(),
        ptr.addr() == released.addr(),
        s2.arena(ptr.class()).free_list() == s0.arena(ptr.class()).free_list(),
        s2.arena(ptr.class()).buffers() == s0.arena(ptr.class()).buffers(),
{
    let a0 = s0.arena(ptr.class());
    let a1 = s1.arena(ptr.class());
    let a2 = s2.arena(ptr.class());
    assert(a1.free_list()[0] == released.addr());
    assert(a2.free_list() =~= a0.free_list());
}

} // verus!
