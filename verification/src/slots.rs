//! Slot geometry inside one buffer, and the byte-level reads and writes that
//! every pool operation is built from.

use vstd::bytes::{
    lemma_auto_spec_u64_to_from_le_bytes, spec_u64_from_le_bytes, spec_u64_to_le_bytes,
    spec_u64_to_le_bytes_to_open, u64_from_le_bytes,
};
use vstd::prelude::*;
use vstd::slice::slice_subrange;

verus! {

/// Width in bytes of the free-list link kept in the head of a free slot.
pub const LINK_SIZE: usize = 8;

/// The link that ends a free list.
pub const NIL: u64 = 0xffff_ffff_ffff_ffff;

/// The bytes of slot `i` in a buffer cut into `ele`-byte slots.
pub open spec fn slot_of(buf: Seq<u8>, ele: nat, i: nat) -> Seq<u8> {
    buf.subrange((i * ele) as int, (i * ele + ele) as int)
}

/// The free-list link held in the first bytes of a slot.
pub open spec fn link_in(slot: Seq<u8>) -> u64 {
    spec_u64_from_le_bytes(slot.subrange(0, 8))
}

/// `s` with the bytes from `at` on replaced by `b`.
pub open spec fn splice(s: Seq<u8>, at: int, b: Seq<u8>) -> Seq<u8> {
    s.subrange(0, at) + b + s.subrange(at + b.len(), s.len() as int)
}

/// The link that slot `i` of a freshly chained buffer holds: the address of
/// the slot after it, or `NIL` in the last slot. `base` is the address of the
/// buffer's first slot.
pub open spec fn chained_link(num: nat, base: nat, i: nat) -> u64 {
    if i + 1 < num {
        (base + i + 1) as u64
    } else {
        NIL
    }
}

/// Whether `buf` holds `num` slots of `ele` bytes, each linked to the next.
pub open spec fn is_chained(buf: Seq<u8>, num: nat, ele: nat, base: nat) -> bool {
    &&& buf.len() == num * ele
    &&& forall|i: nat|
        i < num ==> link_in(#[trigger] slot_of(buf, ele, i)) == chained_link(num, base, i)
}

/// Slot `i` of `num` lies inside a buffer of `num * ele` bytes.
pub proof fn lemma_slot_fits(i: nat, num: nat, ele: nat)
    requires
        i < num,
    ensures
        i * ele + ele <= num * ele,
{
    assert((i + 1) * ele <= num * ele) by (nonlinear_arith)
        requires
            i + 1 <= num,
    ;
    assert((i + 1) * ele == i * ele + ele) by (nonlinear_arith);
}

/// A slot ends before any later slot begins.
pub proof fn lemma_slots_apart(i: nat, j: nat, ele: nat)
    requires
        i < j,
    ensures
        i * ele + ele <= j * ele,
{
    assert((i + 1) * ele <= j * ele) by (nonlinear_arith)
        requires
            i + 1 <= j,
    ;
    assert((i + 1) * ele == i * ele + ele) by (nonlinear_arith);
}

/// A write that stays inside slot `i` rewrites that slot alone.
pub proof fn lemma_splice_in_slot(buf: Seq<u8>, ele: nat, i: nat, at: nat, b: Seq<u8>)
    requires
        i * ele + ele <= buf.len(),
        at + b.len() <= ele,
    ensures
        splice(buf, (i * ele + at) as int, b).len() == buf.len(),
        slot_of(splice(buf, (i * ele + at) as int, b), ele, i) == splice(
            slot_of(buf, ele, i),
            at as int,
            b,
        ),
        forall|j: nat|
            j != i && j * ele + ele <= buf.len() ==> #[trigger] slot_of(
                splice(buf, (i * ele + at) as int, b),
                ele,
                j,
            ) == slot_of(buf, ele, j),
{
    let out = splice(buf, (i * ele + at) as int, b);
    assert(slot_of(out, ele, i) =~= splice(slot_of(buf, ele, i), at as int, b));
    assert forall|j: nat| j != i && j * ele + ele <= buf.len() implies #[trigger] slot_of(
        out,
        ele,
        j,
    ) == slot_of(buf, ele, j) by {
        if j < i {
            lemma_slots_apart(j, i, ele);
        } else {
            lemma_slots_apart(i, j, ele);
        }
        assert(slot_of(out, ele, j) =~= slot_of(buf, ele, j));
    }
}

/// A slot whose head was overwritten with the encoding of `x` links to `x`.
pub proof fn lemma_link_written(slot: Seq<u8>, x: u64)
    requires
        slot.len() >= 8,
    ensures
        link_in(splice(slot, 0, spec_u64_to_le_bytes(x))) == x,
{
    lemma_auto_spec_u64_to_from_le_bytes();
    let b = spec_u64_to_le_bytes(x);
    assert(splice(slot, 0, b).subrange(0, 8) =~= b);
}

/// Copies `bytes` into `buf` from offset `off` on.
pub fn store(buf: &mut Vec<u8>, off: usize, bytes: &[u8])
    requires
        off + bytes@.len() <= old(buf)@.len(),
    ensures
        final(buf)@ == splice(old(buf)@, off as int, bytes@),
{
    let n: usize = bytes.len();
    let total: usize = buf.len();
    let mut k: usize = 0;
    while k < n
        invariant
            n == bytes@.len(),
            total == buf@.len(),
            k <= n,
            off + n <= buf@.len(),
            buf@.len() == old(buf)@.len(),
            forall|p: int| 0 <= p < k ==> buf@[off + p] == bytes@[p],
            forall|p: int|
                0 <= p < buf@.len() && !(off <= p < off + k) ==> buf@[p] == old(buf)@[p],
        decreases n - k,
    {
        buf[off + k] = bytes[k];
        k += 1;
    }
    assert(buf@ =~= splice(old(buf)@, off as int, bytes@));
}

/// Reads the link held in the head of slot `i`.
pub fn load_link(buf: &Vec<u8>, ele: usize, i: usize) -> (x: u64)
    requires
        ele >= LINK_SIZE,
        i * ele + ele <= buf@.len(),
    ensures
        x == link_in(slot_of(buf@, ele as nat, i as nat)),
{
    let total: usize = buf.len();
    let off: usize = i * ele;
    let head = slice_subrange(buf.as_slice(), off, off + LINK_SIZE);
    assert(head@ =~= slot_of(buf@, ele as nat, i as nat).subrange(0, 8));
    u64_from_le_bytes(head)
}

/// Writes the link `x` into the head of slot `i`.
pub fn store_link(buf: &mut Vec<u8>, ele: usize, i: usize, x: u64)
    requires
        ele >= LINK_SIZE,
        i * ele + ele <= old(buf)@.len(),
    ensures
        final(buf)@ == splice(old(buf)@, (i * ele) as int, spec_u64_to_le_bytes(x)),
        final(buf)@.len() == old(buf)@.len(),
        slot_of(final(buf)@, ele as nat, i as nat) == splice(
            slot_of(old(buf)@, ele as nat, i as nat),
            0,
            spec_u64_to_le_bytes(x),
        ),
        link_in(slot_of(final(buf)@, ele as nat, i as nat)) == x,
        forall|j: nat|
            j != i && j * ele + ele <= old(buf)@.len() ==> #[trigger] slot_of(
                final(buf)@,
                ele as nat,
                j,
            ) == slot_of(old(buf)@, ele as nat, j),
{
    let total: usize = buf.len();
    let off: usize = i * ele;
    buf[off] = (x & 0xff) as u8;
    buf[off + 1] = ((x >> 8) & 0xff) as u8;
    buf[off + 2] = ((x >> 16) & 0xff) as u8;
    buf[off + 3] = ((x >> 24) & 0xff) as u8;
    buf[off + 4] = ((x >> 32) & 0xff) as u8;
    buf[off + 5] = ((x >> 40) & 0xff) as u8;
    buf[off + 6] = ((x >> 48) & 0xff) as u8;
    buf[off + 7] = ((x >> 56) & 0xff) as u8;
    proof {
        spec_u64_to_le_bytes_to_open(x);
        assert(buf@ =~= splice(old(buf)@, off as int, spec_u64_to_le_bytes(x)));
        lemma_splice_in_slot(old(buf)@, ele as nat, i as nat, 0, spec_u64_to_le_bytes(x));
        lemma_link_written(slot_of(old(buf)@, ele as nat, i as nat), x);
    }
}

/// Builds a buffer of `num` zeroed slots and links each to the one after it,
/// so that the buffer's first slot heads a free list of all of them.
pub fn chained_buffer(num: usize, ele: usize, base: usize) -> (buf: Vec<u8>)
    requires
        num >= 1,
        ele >= LINK_SIZE,
        num * ele <= usize::MAX,
        base + num <= usize::MAX,
    ensures
        is_chained(buf@, num as nat, ele as nat, base as nat),
{
    let mut buf: Vec<u8> = vec![0u8; num * ele];
    let mut i: usize = 0;
    while i < num
        invariant
            i <= num,
            ele >= LINK_SIZE,
            base + num <= usize::MAX,
            buf@.len() == num * ele,
            forall|j: nat|
                j < i ==> link_in(#[trigger] slot_of(buf@, ele as nat, j)) == chained_link(
                    num as nat,
                    base as nat,
                    j,
                ),
        decreases num - i,
    {
        let next: u64 = if i + 1 < num {
            (base + i + 1) as u64
        } else {
            NIL
        };
        let ghost before = buf@;
        proof {
            lemma_slot_fits(i as nat, num as nat, ele as nat);
        }
        store_link(&mut buf, ele, i, next);
        proof {
            assert forall|j: nat| j < i + 1 implies link_in(
                #[trigger] slot_of(buf@, ele as nat, j),
            ) == chained_link(num as nat, base as nat, j) by {
                lemma_slot_fits(j, num as nat, ele as nat);
                if j != i {
                    assert(slot_of(buf@, ele as nat, j) == slot_of(before, ele as nat, j));
                }
            }
        }
        i += 1;
    }
    buf
}

} // verus!
