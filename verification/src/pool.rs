//! The arena of one size class: a chain of equal buffers and one free list
//! that runs through the heads of their unused slots.

use crate::pointer::Pointer;
use crate::slots::{
    chained_buffer, lemma_slot_fits, lemma_splice_in_slot, link_in, load_link, slot_of, splice,
    store, store_link, LINK_SIZE, NIL,
};
use vstd::arithmetic::div_mod::{
    lemma_fundamental_div_mod, lemma_fundamental_div_mod_converse, lemma_mod_pos_bound,
};
use vstd::arithmetic::power2::is_pow2;
use vstd::bytes::spec_u64_to_le_bytes;
use vstd::prelude::*;
use vstd::slice::slice_subrange;

verus! {

/// Bytes in the first buffer of a pool made with [`Pool::new`].
pub const DEFAULT_POOL_SIZE: usize = 4096;

/// A pool of same-sized slots.
///
/// A slot's address is its number in the chain: slot `i` of buffer `c` has
/// address `c * capacity + i`. Buffers are never moved or resized, so an
/// address stays good for as long as the pool lives.
pub struct Pool {
    /// The chain of buffers, oldest first. Growth appends after the last.
    chunks: Vec<Vec<u8>>,
    /// The free-list cursor: the slot that the next allocation hands out.
    head: Option<usize>,
    ele_size: usize,
    /// Slots per buffer.
    num: usize,
    /// The addresses on the free list, cursor first.
    free: Ghost<Seq<nat>>,
}

/// The quotient and remainder of an address name a buffer of the chain and
/// a slot inside it.
pub proof fn lemma_addr_split(a: nat, n: nat, num: nat)
    requires
        num > 0,
        a < n * num,
    ensures
        a / num < n,
        a % num < num,
        (a / num) * num + a % num == a,
{
    lemma_fundamental_div_mod(a as int, num as int);
    lemma_mod_pos_bound(a as int, num as int);
    let q = a / num;
    assert(num * q == q * num) by (nonlinear_arith);
    if q >= n {
        assert(q * num >= n * num) by (nonlinear_arith)
            requires
                q >= n,
        ;
    }
}

/// Slot `i` of buffer `c` has the address `c * num + i`, and no other.
pub proof fn lemma_addr_join(c: nat, i: nat, num: nat)
    requires
        i < num,
    ensures
        (c * num + i) / num == c,
        (c * num + i) % num == i,
{
    lemma_fundamental_div_mod_converse((c * num + i) as int, num as int, c as int, i as int);
}

impl Pool {
    /// Bytes per slot.
    pub closed spec fn slot_size(&self) -> nat {
        self.ele_size as nat
    }

    /// Slots per buffer.
    pub closed spec fn capacity(&self) -> nat {
        self.num as nat
    }

    /// Buffers in the chain.
    pub closed spec fn buffers(&self) -> nat {
        self.chunks@.len()
    }

    /// The addresses on the free list, in the order in which allocations
    /// will hand them out.
    pub closed spec fn free_list(&self) -> Seq<nat> {
        self.free@
    }

    /// The bytes of the slot at address `a`.
    pub closed spec fn slot(&self, a: nat) -> Seq<u8> {
        slot_of(
            self.chunks@[(a / (self.num as nat)) as int]@,
            self.ele_size as nat,
            a % (self.num as nat),
        )
    }

    /// Slots in the whole chain. Addresses run from 0 up to this.
    pub open spec fn slots(&self) -> nat {
        self.buffers() * self.capacity()
    }

    /// Whether the slot at `a` is handed out and not yet recycled.
    pub open spec fn is_live(&self, a: nat) -> bool {
        a < self.slots() && !self.free_list().contains(a)
    }

    /// Whether the addresses of one more buffer still fit in a `usize`.
    pub open spec fn can_grow(&self) -> bool {
        self.slots() + self.capacity() <= usize::MAX
    }

    /// Whether an allocation can be served: from the free list, or by growth.
    pub open spec fn can_alloc(&self) -> bool {
        self.free_list().len() > 0 || self.can_grow()
    }

    /// The link that stands for the cursor: the address of the head of the
    /// free list, or `NIL` with the list empty.
    pub open spec fn cursor_link(&self) -> u64 {
        if self.free_list().len() > 0 {
            self.free_list()[0] as u64
        } else {
            NIL
        }
    }

    /// Whether entry `k` of the free list holds, in its slot's head, the
    /// address of entry `k + 1`, or `NIL` if it is the last.
    pub open spec fn linked(&self, k: int) -> bool {
        link_in(self.slot(self.free_list()[k])) == (if k + 1 < self.free_list().len() {
            self.free_list()[k + 1] as u64
        } else {
            NIL
        })
    }

    /// The shape of the chain: equal buffers whose slots can hold a link and
    /// whose addresses fit in a `usize`.
    spec fn shaped(&self) -> bool {
        &&& self.ele_size >= LINK_SIZE
        &&& is_pow2(self.ele_size as int)
        &&& self.num >= 1
        &&& self.num * self.ele_size <= usize::MAX
        &&& self.chunks@.len() >= 1
        &&& self.chunks@.len() * self.num <= usize::MAX
        &&& forall|c: int|
            0 <= c < self.chunks@.len() ==> (#[trigger] self.chunks@[c])@.len() == self.num
                * self.ele_size
    }

    /// The pool's invariant: the chain is well shaped, and the free list is
    /// a duplicate-free list of slots of the chain that starts at the cursor
    /// and is linked through the slots' own bytes.
    pub closed spec fn wf(&self) -> bool {
        &&& self.shaped()
        &&& forall|k: int|
            0 <= k < self.free@.len() ==> #[trigger] self.free@[k] < self.chunks@.len() * self.num
        &&& self.free@.no_duplicates()
        &&& self.head == (if self.free@.len() == 0 {
            None::<usize>
        } else {
            Some(self.free@[0] as usize)
        })
        &&& forall|k: int| 0 <= k < self.free@.len() ==> #[trigger] self.linked(k)
    }

    /// A pool straight from construction: one buffer of `num` slots of `ele`
    /// bytes, all of them free, in address order.
    pub open spec fn is_fresh(&self, num: nat, ele: nat) -> bool {
        &&& self.wf()
        &&& self.slot_size() == ele
        &&& self.capacity() == num
        &&& self.buffers() == 1
        &&& self.free_list() == Seq::new(num, |k: int| k as nat)
    }

    /// `next` is `self` after the chain grew by one buffer, whose slots now
    /// make up the free list.
    pub open spec fn grows(&self, next: &Pool) -> bool {
        &&& next.slot_size() == self.slot_size()
        &&& next.capacity() == self.capacity()
        &&& next.buffers() == self.buffers() + 1
        &&& next.free_list() == Seq::new(self.capacity(), |k: int| (self.slots() + k) as nat)
        &&& forall|a: nat| a < self.slots() ==> #[trigger] next.slot(a) == self.slot(a)
    }

    /// The free-list step of one allocation that hands out `addr`: the head
    /// of the list leaves it, or, with the list empty, the chain grows by
    /// one buffer whose first slot is handed out and whose other slots
    /// become the list.
    pub open spec fn pops(&self, next: &Pool, addr: nat) -> bool {
        if self.free_list().len() > 0 {
            &&& addr == self.free_list()[0]
            &&& next.free_list() == self.free_list().skip(1)
            &&& next.buffers() == self.buffers()
        } else {
            &&& addr == self.slots()
            &&& next.free_list() == Seq::new(
                (self.capacity() - 1) as nat,
                |k: int| (self.slots() + 1 + k) as nat,
            )
            &&& next.buffers() == self.buffers() + 1
        }
    }

    /// `next` is `self` after one allocation that handed out the slot at
    /// `addr`. No slot's bytes change.
    pub open spec fn allocates(&self, next: &Pool, addr: nat) -> bool {
        &&& next.slot_size() == self.slot_size()
        &&& next.capacity() == self.capacity()
        &&& self.pops(next, addr)
        &&& forall|a: nat| a < self.slots() ==> #[trigger] next.slot(a) == self.slot(a)
    }

    /// `next` is `self` after one allocation that handed out the slot at
    /// `addr` and put `bytes` at its start. Every other slot keeps its bytes.
    pub open spec fn places(&self, next: &Pool, addr: nat, bytes: Seq<u8>) -> bool {
        &&& next.slot_size() == self.slot_size()
        &&& next.capacity() == self.capacity()
        &&& self.pops(next, addr)
        &&& next.slot(addr).subrange(0, bytes.len() as int) == bytes
        &&& forall|a: nat|
            a < self.slots() && a != addr ==> #[trigger] next.slot(a) == self.slot(a)
    }

    /// `next` is `self` after the slot at `addr` went back to the head of
    /// the free list: the head of its bytes now holds the link to the old
    /// cursor. Every other slot keeps its bytes.
    pub open spec fn recycles(&self, next: &Pool, addr: nat) -> bool {
        &&& next.slot_size() == self.slot_size()
        &&& next.capacity() == self.capacity()
        &&& next.buffers() == self.buffers()
        &&& next.free_list() == seq![addr] + self.free_list()
        &&& next.slot(addr) == splice(
            self.slot(addr),
            0,
            spec_u64_to_le_bytes(self.cursor_link()),
        )
        &&& forall|a: nat|
            a < self.slots() && a != addr ==> #[trigger] next.slot(a) == self.slot(a)
    }

    /// `next` is `self` after `bytes` were written into the slot at `addr`
    /// from offset `at` on. Nothing else changes.
    pub open spec fn writes(&self, next: &Pool, addr: nat, at: nat, bytes: Seq<u8>) -> bool {
        &&& next.slot_size() == self.slot_size()
        &&& next.capacity() == self.capacity()
        &&& next.buffers() == self.buffers()
        &&& next.free_list() == self.free_list()
        &&& next.slot(addr) == splice(self.slot(addr), at as int, bytes)
        &&& forall|a: nat|
            a < self.slots() && a != addr ==> #[trigger] next.slot(a) == self.slot(a)
    }

    /// What the invariant says of the public model: the shape of the chain,
    /// and that the free list is a duplicate-free list of slots of the chain
    /// threaded through the heads of those slots.
    pub proof fn lemma_wf(&self)
        requires
            self.wf(),
        ensures
            self.slot_size() >= LINK_SIZE,
            is_pow2(self.slot_size() as int),
            self.capacity() >= 1,
            self.buffers() >= 1,
            self.slots() <= usize::MAX,
            self.capacity() * self.slot_size() <= usize::MAX,
            self.free_list().no_duplicates(),
            forall|k: int|
                0 <= k < self.free_list().len() ==> #[trigger] self.free_list()[k] < self.slots(),
            forall|a: nat| a < self.slots() ==> (#[trigger] self.slot(a)).len() == self.slot_size(),
            forall|k: int| 0 <= k < self.free_list().len() ==> #[trigger] self.linked(k),
    {
        assert forall|a: nat| a < self.slots() implies (#[trigger] self.slot(a)).len()
            == self.slot_size() by {
            lemma_addr_split(a, self.chunks@.len(), self.num as nat);
            lemma_slot_fits(a % (self.num as nat), self.num as nat, self.ele_size as nat);
        }
    }

    /// An allocation hands out a slot that was not live, makes it live,
    /// and leaves every live slot live.
    pub proof fn lemma_pops_fresh(&self, next: &Pool, addr: nat)
        requires
            self.wf(),
            next.capacity() == self.capacity(),
            self.pops(next, addr),
        ensures
            !self.is_live(addr),
            next.is_live(addr),
            next.slots() >= self.slots(),
            forall|a: nat| self.is_live(a) ==> next.is_live(a) && a != addr,
    {
        self.lemma_wf();
        let free = self.free_list();
        let after = next.free_list();
        assert((self.buffers() + 1) * self.capacity() == self.buffers() * self.capacity()
            + self.capacity()) by (nonlinear_arith);
        if free.len() > 0 {
            assert(free[0] < self.slots());
            assert(free.contains(addr));
        }
        assert forall|j: int| 0 <= j < after.len() implies after[j] != addr && !self.is_live(
            #[trigger] after[j],
        ) by {
            if free.len() > 0 {
                assert(after[j] == free[j + 1]);
                assert(free.contains(free[j + 1]));
            }
        }
    }

    /// Rewriting one slot of one buffer leaves every other slot of the
    /// chain as it was.
    proof fn lemma_frame(&self, next: &Pool, a: nat)
        requires
            self.shaped(),
            a < self.chunks@.len() * self.num,
            next.num == self.num,
            next.ele_size == self.ele_size,
            next.chunks@.len() == self.chunks@.len(),
            forall|d: int|
                0 <= d < self.chunks@.len() && d != a / (self.num as nat) ==> next.chunks@[d]
                    == self.chunks@[d],
            forall|j: nat|
                j != a % (self.num as nat) && j * self.ele_size + self.ele_size <= self.num
                    * self.ele_size ==> #[trigger] slot_of(
                    next.chunks@[(a / (self.num as nat)) as int]@,
                    self.ele_size as nat,
                    j,
                ) == slot_of(
                    self.chunks@[(a / (self.num as nat)) as int]@,
                    self.ele_size as nat,
                    j,
                ),
        ensures
            forall|b: nat|
                b < self.chunks@.len() * self.num && b != a ==> #[trigger] next.slot(b)
                    == self.slot(b),
    {
        let num = self.num as nat;
        let ele = self.ele_size as nat;
        lemma_addr_split(a, self.chunks@.len(), num);
        assert forall|b: nat| b < self.chunks@.len() * self.num && b != a implies #[trigger] next.slot(
            b,
        ) == self.slot(b) by {
            lemma_addr_split(b, self.chunks@.len(), num);
            if b / num == a / num {
                lemma_slot_fits(b % num, num, ele);
                assert(slot_of(next.chunks@[(a / num) as int]@, ele, b % num) == slot_of(
                    self.chunks@[(a / num) as int]@,
                    ele,
                    b % num,
                ));
            }
        }
    }

    /// `next` differs from `self` in at most byte `at` of the slot at `addr`.
    spec fn pokes(&self, next: &Pool, addr: nat, at: nat) -> bool {
        let c = (addr / (self.num as nat)) as int;
        let off = (addr % (self.num as nat)) * self.ele_size + at;
        &&& next.num == self.num
        &&& next.ele_size == self.ele_size
        &&& next.head == self.head
        &&& next.free@ == self.free@
        &&& next.chunks@.len() == self.chunks@.len()
        &&& forall|d: int| 0 <= d < self.chunks@.len() && d != c ==> next.chunks@[d] == self.chunks@[d]
        &&& next.chunks@[c]@ == self.chunks@[c]@.update(off, next.chunks@[c]@[off])
    }

    /// Changing one byte of a live slot is a write of that byte.
    proof fn lemma_poke(&self, next: &Pool, addr: nat, at: nat)
        requires
            self.wf(),
            self.is_live(addr),
            at < self.slot_size(),
            self.pokes(next, addr, at),
        ensures
            next.wf(),
            self.writes(next, addr, at, seq![next.slot(addr)[at as int]]),
            next.slot(addr)[at as int] == next.chunks@[(addr / (self.num as nat)) as int]@[(addr % (
            self.num as nat)) * self.ele_size + at],
    {
        let num = self.num as nat;
        let ele = self.ele_size as nat;
        let c = (addr / num) as int;
        let i = addr % num;
        let off = i * ele + at;
        lemma_addr_split(addr, self.chunks@.len(), num);
        lemma_slot_fits(i, num, ele);
        let v = next.chunks@[c]@[off as int];
        lemma_splice_in_slot(self.chunks@[c]@, ele, i, at, seq![v]);
        assert(next.chunks@[c]@ =~= splice(self.chunks@[c]@, off as int, seq![v]));
        self.lemma_frame(next, addr);
        assert(next.slot(addr)[at as int] == v);
        assert forall|k: int| 0 <= k < next.free@.len() implies #[trigger] next.linked(k) by {
            assert(self.linked(k));
            assert(self.free@[k] < self.chunks@.len() * self.num);
            assert(self.free@.contains(self.free@[k]));
        }
        assert forall|d: int| 0 <= d < next.chunks@.len() implies (#[trigger] next.chunks@[d])@.len()
            == next.num * next.ele_size by {
            assert(self.chunks@[d]@.len() == self.num * self.ele_size);
        }
    }

    /// Makes a pool of `ele_size`-byte slots whose first buffer takes
    /// `DEFAULT_POOL_SIZE` bytes.
    pub fn new(ele_size: usize) -> (pool: Pool)
        requires
            is_pow2(ele_size as int),
            LINK_SIZE <= ele_size <= DEFAULT_POOL_SIZE,
            DEFAULT_POOL_SIZE % ele_size == 0,
        ensures
            pool.is_fresh((DEFAULT_POOL_SIZE / ele_size) as nat, ele_size as nat),
    {
        proof {
            lemma_fundamental_div_mod(DEFAULT_POOL_SIZE as int, ele_size as int);
            let q = DEFAULT_POOL_SIZE as int / ele_size as int;
            assert(q * ele_size == ele_size * q) by (nonlinear_arith);
            if q < 1 {
                assert(ele_size * q <= 0) by (nonlinear_arith)
                    requires
                        q <= 0,
                        ele_size >= 0,
                ;
            }
        }
        Pool::with_capacity(DEFAULT_POOL_SIZE / ele_size, ele_size)
    }

    /// Makes a pool whose buffers hold `num` slots of `ele_size` bytes
    /// each. The first buffer is built and all its slots are free.
    pub fn with_capacity(num: usize, ele_size: usize) -> (pool: Pool)
        requires
            num >= 1,
            ele_size >= LINK_SIZE,
            is_pow2(ele_size as int),
            num * ele_size <= usize::MAX,
        ensures
            pool.is_fresh(num as nat, ele_size as nat),
    {
        let buf = chained_buffer(num, ele_size, 0);
        let mut chunks: Vec<Vec<u8>> = Vec::new();
        chunks.push(buf);
        let pool = Pool {
            chunks,
            head: Some(0),
            ele_size,
            num,
            free: Ghost(Seq::new(num as nat, |k: int| k as nat)),
        };
        proof {
            assert(pool.chunks@.len() * num == num) by (nonlinear_arith)
                requires
                    pool.chunks@.len() == 1,
            ;
            assert forall|k: int| 0 <= k < pool.free@.len() implies #[trigger] pool.linked(k) by {
                lemma_addr_join(0, k as nat, num as nat);
                assert(0 * (num as nat) + k as nat == k as nat) by (nonlinear_arith);
                assert(pool.slot(k as nat) == slot_of(pool.chunks@[0]@, ele_size as nat, k as nat));
            }
        }
        pool
    }

    /// Bytes per slot.
    pub fn ele_size(&self) -> (n: usize)
        ensures
            n == self.slot_size(),
    {
        self.ele_size
    }

    /// Slots per buffer.
    pub fn buffer_slots(&self) -> (n: usize)
        ensures
            n == self.capacity(),
    {
        self.num
    }

    /// Buffers in the chain.
    pub fn chain_len(&self) -> (n: usize)
        ensures
            n == self.buffers(),
    {
        self.chunks.len()
    }

    /// Tells whether the next allocation can be served.
    pub fn has_room(&self) -> (b: bool)
        requires
            self.wf(),
        ensures
            b == self.can_alloc(),
    {
        let total: usize = self.chunks.len() * self.num;
        self.head.is_some() || usize::MAX - total >= self.num
    }

    /// Appends one buffer to the chain if the free list is empty, and makes
    /// its slots the free list. With slots still free it does nothing.
    pub fn extend(&mut self)
        requires
            old(self).wf(),
            old(self).can_alloc(),
        ensures
            final(self).wf(),
            old(self).free_list().len() > 0 ==> *final(self) == *old(self),
            old(self).free_list().len() == 0 ==> old(self).grows(final(self)),
    {
        if self.head.is_none() {
            let n: usize = self.chunks.len();
            proof {
                assert((n + 1) * self.num == n * self.num + self.num) by (nonlinear_arith);
            }
            let base: usize = n * self.num;
            let buf = chained_buffer(self.num, self.ele_size, base);
            self.chunks.push(buf);
            self.head = Some(base);
            self.free = Ghost(Seq::new(self.num as nat, |k: int| (base + k) as nat));
            proof {
                let num = self.num as nat;
                let ele = self.ele_size as nat;
                assert forall|k: int| 0 <= k < self.free@.len() implies #[trigger] self.linked(
                    k,
                ) by {
                    lemma_addr_join(n as nat, k as nat, num);
                    assert(self.slot((base + k) as nat) == slot_of(
                        self.chunks@[n as int]@,
                        ele,
                        k as nat,
                    ));
                }
                assert forall|a: nat| a < old(self).slots() implies #[trigger] self.slot(a) == old(
                    self,
                ).slot(a) by {
                    lemma_addr_split(a, n as nat, num);
                }
            }
        }
    }

    /// Hands out a slot for a value of `size` bytes: the head of the free
    /// list, after growing the chain if the list is empty.
    pub fn allocate(&mut self, size: usize) -> (ptr: Pointer<()>)
        requires
            old(self).wf(),
            size <= old(self).slot_size(),
            old(self).can_alloc(),
        ensures
            final(self).wf(),
            old(self).allocates(final(self), ptr.addr()),
            ptr.class() == old(self).slot_size(),
            ptr.len() == size,
    {
        self.extend();
        let ghost grown = *self;
        let addr: usize = match self.head {
            Some(a) => a,
            None => 0,
        };
        proof {
            assert(grown.free@.len() > 0);
            assert(grown.free@[0] < grown.chunks@.len() * grown.num);
            assert(grown.linked(0));
            lemma_addr_split(addr as nat, self.chunks@.len(), self.num as nat);
            lemma_slot_fits((addr % self.num) as nat, self.num as nat, self.ele_size as nat);
        }
        let c: usize = addr / self.num;
        let i: usize = addr % self.num;
        let next: u64 = load_link(&self.chunks[c], self.ele_size, i);
        self.head = if next == NIL {
            None
        } else {
            Some(next as usize)
        };
        self.free = Ghost(self.free@.skip(1));
        proof {
            assert forall|k: int| 0 <= k < self.free@.len() implies #[trigger] self.linked(k) by {
                assert(grown.linked(k + 1));
            }
            assert forall|k: int| 0 <= k < self.free@.len() implies #[trigger] self.free@[k]
                < self.chunks@.len() * self.num by {
                assert(grown.free@[k + 1] < grown.chunks@.len() * grown.num);
            }
            if self.free@.len() > 0 {
                assert(grown.free@[1] < grown.chunks@.len() * grown.num);
            }
            assert forall|a: nat| a < old(self).slots() implies #[trigger] self.slot(a) == old(
                self,
            ).slot(a) by {
                assert(grown.slot(a) == old(self).slot(a));
            }
            if old(self).free@.len() == 0 {
                assert(self.free@ =~= Seq::new(
                    (old(self).capacity() - 1) as nat,
                    |k: int| (old(self).slots() + 1 + k) as nat,
                ));
            }
        }
        Pointer::issue(self.ele_size, addr, size)
    }

    /// Allocates a slot and copies `elem` into it.
    pub fn place(&mut self, elem: &[u8]) -> (ptr: Pointer<()>)
        requires
            old(self).wf(),
            elem@.len() <= old(self).slot_size(),
            old(self).can_alloc(),
        ensures
            final(self).wf(),
            old(self).places(final(self), ptr.addr(), elem@),
            final(self).is_live(ptr.addr()),
            ptr.class() == old(self).slot_size(),
            ptr.len() == elem@.len(),
    {
        let ptr = self.allocate(elem.len());
        let ghost mid = *self;
        proof {
            old(self).lemma_pops_fresh(&mid, ptr.addr());
        }
        self.write(ptr.address(), 0, elem);
        proof {
            mid.lemma_wf();
            assert(self.slot(ptr.addr()).subrange(0, elem@.len() as int) =~= elem@);
            assert forall|a: nat| a < old(self).slots() && a != ptr.addr() implies #[trigger] self.slot(
                a,
            ) == old(self).slot(a) by {
                assert(mid.slot(a) == old(self).slot(a));
            }
        }
        ptr
    }

    /// Puts the slot at `addr` back at the head of the free list.
    pub fn recycle(&mut self, addr: usize)
        requires
            old(self).wf(),
            old(self).is_live(addr as nat),
        ensures
            final(self).wf(),
            old(self).recycles(final(self), addr as nat),
    {
        proof {
            lemma_addr_split(addr as nat, self.chunks@.len(), self.num as nat);
            lemma_slot_fits((addr % self.num) as nat, self.num as nat, self.ele_size as nat);
        }
        let c: usize = addr / self.num;
        let i: usize = addr % self.num;
        let link: u64 = match self.head {
            Some(h) => h as u64,
            None => NIL,
        };
        store_link(&mut self.chunks[c], self.ele_size, i, link);
        self.head = Some(addr);
        self.free = Ghost(seq![addr as nat] + self.free@);
        proof {
            old(self).lemma_frame(self, addr as nat);
            assert forall|k: int| 0 <= k < self.free@.len() implies #[trigger] self.linked(k) by {
                if k > 0 {
                    assert(old(self).linked(k - 1));
                    assert(old(self).free@[k - 1] < old(self).chunks@.len() * old(self).num);
                    assert(old(self).free@.contains(old(self).free@[k - 1]));
                    if k > 1 {
                        assert(old(self).free@[k - 2] < old(self).chunks@.len() * old(self).num);
                    }
                } else if old(self).free@.len() > 0 {
                    assert(old(self).free@[0] < old(self).chunks@.len() * old(self).num);
                }
            }
            assert forall|k: int| 0 <= k < self.free@.len() implies #[trigger] self.free@[k]
                < self.chunks@.len() * self.num by {
                if k > 0 {
                    assert(old(self).free@[k - 1] < old(self).chunks@.len() * old(self).num);
                }
            }
            assert forall|p: int, q: int|
                0 <= p < self.free@.len() && 0 <= q < self.free@.len() && p != q implies self.free@[p]
                != self.free@[q] by {
                if p > 0 {
                    assert(old(self).free@.contains(old(self).free@[p - 1]));
                }
                if q > 0 {
                    assert(old(self).free@.contains(old(self).free@[q - 1]));
                }
            }
        }
    }

    /// Borrows the first `len` bytes of the live slot at `addr`.
    pub fn read(&self, addr: usize, len: usize) -> (bytes: &[u8])
        requires
            self.wf(),
            self.is_live(addr as nat),
            len <= self.slot_size(),
        ensures
            bytes@ == self.slot(addr as nat).subrange(0, len as int),
    {
        proof {
            lemma_addr_split(addr as nat, self.chunks@.len(), self.num as nat);
            lemma_slot_fits((addr % self.num) as nat, self.num as nat, self.ele_size as nat);
        }
        let c: usize = addr / self.num;
        let i: usize = addr % self.num;
        let off: usize = i * self.ele_size;
        let bytes = slice_subrange(self.chunks[c].as_slice(), off, off + len);
        assert(bytes@ =~= self.slot(addr as nat).subrange(0, len as int));
        bytes
    }

    /// Copies `bytes` into the live slot at `addr`, from offset `at` on.
    pub fn write(&mut self, addr: usize, at: usize, bytes: &[u8])
        requires
            old(self).wf(),
            old(self).is_live(addr as nat),
            at + bytes@.len() <= old(self).slot_size(),
        ensures
            final(self).wf(),
            old(self).writes(final(self), addr as nat, at as nat, bytes@),
    {
        proof {
            lemma_addr_split(addr as nat, self.chunks@.len(), self.num as nat);
            lemma_slot_fits((addr % self.num) as nat, self.num as nat, self.ele_size as nat);
        }
        let c: usize = addr / self.num;
        let i: usize = addr % self.num;
        let off: usize = i * self.ele_size + at;
        proof {
            lemma_splice_in_slot(
                self.chunks@[c as int]@,
                self.ele_size as nat,
                i as nat,
                at as nat,
                bytes@,
            );
        }
        store(&mut self.chunks[c], off, bytes);
        proof {
            old(self).lemma_frame(self, addr as nat);
            assert forall|k: int| 0 <= k < self.free@.len() implies #[trigger] self.linked(k) by {
                assert(old(self).linked(k));
                assert(old(self).free@[k] < old(self).chunks@.len() * old(self).num);
                assert(old(self).free@.contains(old(self).free@[k]));
            }
        }
    }

    /// Lends byte `at` of the live slot at `addr` for writing.
    pub fn byte_mut(&mut self, addr: usize, at: usize) -> (byte: &mut u8)
        requires
            old(self).wf(),
            old(self).is_live(addr as nat),
            at < old(self).slot_size(),
        ensures
            *byte == old(self).slot(addr as nat)[at as int],
            final(self).wf(),
            old(self).writes(final(self), addr as nat, at as nat, seq![*final(byte)]),
            final(self).slot(addr as nat)[at as int] == *final(byte),
    {
        proof {
            lemma_addr_split(addr as nat, self.chunks@.len(), self.num as nat);
            lemma_slot_fits((addr % self.num) as nat, self.num as nat, self.ele_size as nat);
        }
        let c: usize = addr / self.num;
        let i: usize = addr % self.num;
        let off: usize = i * self.ele_size + at;
        proof {
            assert forall|next: Pool| old(self).pokes(&next, addr as nat, at as nat) implies (
            #[trigger] next.wf()) && next.slot(addr as nat)[at as int] == next.chunks@[c as int]@[off as int] by {
                old(self).lemma_poke(&next, addr as nat, at as nat);
            }
            assert forall|next: Pool, v: u8|
                old(self).pokes(&next, addr as nat, at as nat) && v == next.chunks@[c as int]@[off as int] implies #[trigger] old(
                self,
            ).writes(&next, addr as nat, at as nat, seq![v]) by {
                old(self).lemma_poke(&next, addr as nat, at as nat);
            }
        }
        let chunk = &mut self.chunks[c];
        let byte = &mut chunk[off];
        byte
    }
}

} // verus!
