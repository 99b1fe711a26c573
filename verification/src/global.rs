//! The pool: the epoch clock, the arena of slots and the stack of available
//! bags.

use vstd::prelude::*;
use crate::arena::{
    addressable,
    index_of,
    is_addr,
    is_addressable,
    lemma_addr_of_index,
    lemma_index_of_addr,
    slot_index,
};
use crate::bag::{fresh_addrs, Bag, ENTRIES_PER_BAG};
use crate::stack::{handle_at, BagStack, StackView};
use crate::word::pack;

verus! {

/// The retire stamp of a slot that is not retired.
pub const NOT_RETIRED: u64 = 0xffff_ffff_ffff_ffff;

/// A reusable slot: the epoch at which its incarnation was born, the epoch at
/// which that incarnation was retired, and the payload.
pub struct Ver<T> {
    birth: u64,
    retire: u64,
    data: T,
}

/// What a slot holds.
pub struct SlotView<T> {
    pub birth: u64,
    pub retire: u64,
    pub data: T,
}

impl<T> SlotView<T> {
    /// Whether the incarnation is live: born and not retired.
    pub open spec fn is_live(self) -> bool {
        self.retire == NOT_RETIRED
    }

    /// Under the clock `epoch`, a slot was born no later than now, and was
    /// retired, if at all, between its birth and now.
    pub open spec fn wf(self, epoch: u64) -> bool {
        &&& self.birth <= epoch
        &&& (self.retire == NOT_RETIRED || self.birth <= self.retire <= epoch)
    }

    /// Whether a guard that was made at `epoch` may take the slot for a new
    /// incarnation: no guard made at or before the retirement can still look
    /// at the old one.
    pub open spec fn reusable_at(self, epoch: u64) -> bool {
        self.retire < epoch
    }

    /// The slot as a new incarnation born at `epoch`.
    pub open spec fn reborn(self, epoch: u64) -> SlotView<T> {
        SlotView { birth: epoch, retire: NOT_RETIRED, ..self }
    }

    /// Whether the retirement of the incarnation born at `birth` takes effect:
    /// the slot still holds that incarnation, and nobody retired it before.
    pub open spec fn retirable_as(self, birth: u64) -> bool {
        self.birth == birth && self.retire == NOT_RETIRED
    }

    /// The slot after its incarnation was retired at `epoch`.
    pub open spec fn retired(self, epoch: u64) -> SlotView<T> {
        SlotView { retire: epoch, ..self }
    }

    /// Incarnations in one slot follow each other in time: whenever a slot
    /// may be taken for a new incarnation, the new birth is later than the
    /// birth before it, and the new incarnation is not retired.
    pub proof fn law_reincarnation_is_monotonic(self, clock: u64, epoch: u64)
        requires
            self.wf(clock),
            epoch <= clock,
            self.reusable_at(epoch),
        ensures
            self.birth < self.reborn(epoch).birth,
            self.reborn(epoch).birth == epoch,
            self.reborn(epoch).is_live(),
            self.reborn(epoch).wf(clock),
    {
    }

    /// A live slot is never taken for a new incarnation, whatever the epoch
    /// of the guard that asks.
    pub proof fn law_live_slot_is_kept(self, epoch: u64)
        requires
            self.is_live(),
        ensures
            !self.reusable_at(epoch),
    {
    }

    /// An incarnation is retired at most once: once the slot carries a retire
    /// stamp, no retirement takes effect on it until it is born again.
    pub proof fn law_retired_stays_retired(self, birth: u64, epoch: u64)
        requires
            epoch < NOT_RETIRED,
        ensures
            !self.retired(epoch).retirable_as(birth),
            self.retired(epoch).birth == self.birth,
    {
    }

    /// Whether the slot is as the pool makes it: never born, never retired,
    /// with a default payload.
    pub open spec fn is_fresh(self) -> bool where T: Default {
        &&& self.birth == 0
        &&& self.retire == 0
        &&& call_ensures(T::default, (), self.data)
    }
}

impl<T> View for Ver<T> {
    type V = SlotView<T>;

    closed spec fn view(&self) -> SlotView<T> {
        SlotView { birth: self.birth, retire: self.retire, data: self.data }
    }
}

impl<T: Default> Default for Ver<T> {
    /// A slot that was never born and never retired.
    fn default() -> (slot: Self)
        ensures
            slot@.is_fresh(),
    {
        Ver { birth: 0, retire: 0, data: T::default() }
    }
}

impl<T> Ver<T> {
    /// The epoch at which the incarnation in the slot was born.
    pub fn birth(&self) -> (birth: u64)
        ensures
            birth == self@.birth,
    {
        self.birth
    }

    /// The epoch at which the incarnation in the slot was retired, or
    /// `NOT_RETIRED`.
    pub fn retire(&self) -> (retire: u64)
        ensures
            retire == self@.retire,
    {
        self.retire
    }

    /// The payload of the slot.
    pub fn data(&self) -> (data: &T)
        ensures
            *data == self@.data,
    {
        &self.data
    }
}

/// What a pool is: the clock, the stack of available bags with the arena of
/// all bags, the slots, and for every bag that a thread's cache holds the
/// number of that cache.
pub struct GlobalView<T> {
    pub epoch: u64,
    pub avail: StackView,
    pub slots: Seq<SlotView<T>>,
    pub holders: Map<usize, nat>,
    pub locals: nat,
}

/// The handles of `count` bags that were pushed in the order of their
/// handles, from the top of the stack down.
pub open spec fn countdown(count: nat) -> Seq<usize> {
    Seq::new(count, |k: int| (count - k) as usize)
}

/// The number of bags that hold `capacity` slots.
pub open spec fn bags_for(capacity: usize) -> nat {
    (capacity / ENTRIES_PER_BAG + if capacity % ENTRIES_PER_BAG > 0 {
        1int
    } else {
        0int
    }) as nat
}

impl<T> GlobalView<T> {
    /// Whether `addr` is the address of a slot of the pool.
    pub open spec fn is_slot(self, addr: usize) -> bool {
        is_addr::<Ver<T>>(addr as int, self.slots.len() as int)
    }

    /// The slot at the address `addr`.
    pub open spec fn slot(self, addr: usize) -> SlotView<T>
        recommends
            self.is_slot(addr),
    {
        self.slots[index_of::<Ver<T>>(addr as int)]
    }

    /// The pool with `slot` at the address `addr`.
    pub open spec fn with_slot(self, addr: usize, slot: SlotView<T>) -> GlobalView<T>
        recommends
            self.is_slot(addr),
    {
        GlobalView { slots: self.slots.update(index_of::<Ver<T>>(addr as int), slot), ..self }
    }

    /// The birth of the slot at `addr`, or zero where the pool has yet to make
    /// that slot.
    pub open spec fn birth_at(self, addr: usize) -> u64 {
        if self.is_slot(addr) {
            self.slot(addr).birth
        } else {
            0
        }
    }

    /// The retire stamp of the slot at `addr`, or zero where the pool has yet
    /// to make that slot.
    pub open spec fn retire_at(self, addr: usize) -> u64 {
        if self.is_slot(addr) {
            self.slot(addr).retire
        } else {
            0
        }
    }

    /// The pool with the stamps `birth` and `retire` on the slot at `addr`.
    pub open spec fn with_stamps(self, addr: usize, birth: u64, retire: u64) -> GlobalView<T>
        recommends
            self.is_slot(addr),
    {
        self.with_slot(addr, SlotView { birth, retire, ..self.slot(addr) })
    }

    /// The invariant of a pool: every slot has an address and stamps that
    /// agree with the clock, every bag holds addresses of slots, and every bag
    /// that a cache holds is out of the stack.
    pub open spec fn wf(self) -> bool {
        &&& self.avail.wf()
        &&& addressable::<Ver<T>>(self.slots.len() as int)
        &&& forall|i: int| 0 <= i < self.slots.len() ==> (#[trigger] self.slots[i]).wf(self.epoch)
        &&& forall|bag: usize, j: int|
            self.avail.is_bag(bag) && 0 <= j < self.avail.entries(bag).len() ==> self.is_slot(
                #[trigger] self.avail.entries(bag)[j],
            )
        &&& forall|bag: usize| #[trigger]
            self.holders.contains_key(bag) ==> self.avail.is_out(bag) && self.holders[bag]
                < self.locals
    }

    /// The handle that the acquire number `k` of a run of acquires gives: the
    /// available bags from the top down, then bags that the pool makes.
    pub open spec fn acquired_at(self, k: int) -> usize {
        if k < self.avail.chain.len() {
            self.avail.chain[k]
        } else {
            (self.avail.bags.len() + 1 + (k - self.avail.chain.len())) as usize
        }
    }

    /// The handles that a run of `n` acquires gives.
    pub open spec fn acquired(self, n: nat) -> Seq<usize> {
        Seq::new(n, |k: int| self.acquired_at(k))
    }

    /// The number of bags that the pool makes in a run of `n` acquires.
    pub open spec fn made_by(self, n: nat) -> nat {
        if n > self.avail.chain.len() {
            (n - self.avail.chain.len()) as nat
        } else {
            0
        }
    }

    /// The addresses in the bag number `i` that the pool makes from now on.
    pub open spec fn made_entries(self, i: int) -> Seq<usize> {
        fresh_addrs::<Ver<T>>(self.slots.len() + i * ENTRIES_PER_BAG, ENTRIES_PER_BAG as nat)
    }

    /// The pool after a run of `n` acquires in which the slots `cells` were
    /// made.
    pub open spec fn after_acquires(self, n: nat, cells: Seq<SlotView<T>>) -> GlobalView<T> {
        GlobalView {
            avail: StackView {
                stamp: (self.avail.stamp + self.made_by(n)) as u64,
                chain: self.avail.chain.skip(
                    if n > self.avail.chain.len() {
                        self.avail.chain.len() as int
                    } else {
                        n as int
                    },
                ),
                bags: self.avail.bags + Seq::new(self.made_by(n), |i: int| self.made_entries(i)),
            },
            slots: self.slots + cells,
            ..self
        }
    }

    /// The pool after the cache `id` took hold of the bags `bags`.
    pub open spec fn lent(self, bags: Seq<usize>, id: nat) -> GlobalView<T> {
        GlobalView {
            holders: Map::new(
                |bag: usize| self.holders.contains_key(bag) || bags.contains(bag),
                |bag: usize|
                    if bags.contains(bag) {
                        id
                    } else {
                        self.holders[bag]
                    },
            ),
            ..self
        }
    }

    /// The pool after the bags `bags`, which were out, were handed back one
    /// after the other: the last one lies on top, and no cache holds any of
    /// them.
    pub open spec fn after_retires(self, bags: Seq<usize>) -> GlobalView<T> {
        GlobalView {
            avail: StackView {
                stamp: (self.avail.stamp + bags.len()) as u64,
                chain: Seq::new(bags.len(), |i: int| bags[bags.len() - 1 - i]) + self.avail.chain,
                ..self.avail
            },
            holders: Map::new(
                |bag: usize| self.holders.contains_key(bag) && !bags.contains(bag),
                |bag: usize| self.holders[bag],
            ),
            ..self
        }
    }

    /// Whether the pool can make one more bag of new slots: the stamp of the
    /// stack can be raised, and the new slots have addresses.
    pub open spec fn can_grow(self) -> bool {
        self.can_grow_by(1)
    }

    /// Whether the pool can make `bags` more bags of new slots.
    pub open spec fn can_grow_by(self, bags: nat) -> bool {
        &&& self.avail.stamp + bags <= u64::MAX
        &&& addressable::<Ver<T>>(self.slots.len() + bags * ENTRIES_PER_BAG)
    }

    /// The pool after it made one bag of the new slots `cells` and handed the
    /// bag out.
    pub open spec fn grown(self, cells: Seq<SlotView<T>>) -> GlobalView<T> {
        GlobalView {
            avail: StackView {
                stamp: (self.avail.stamp + 1) as u64,
                chain: self.avail.chain,
                bags: self.avail.bags.push(
                    fresh_addrs::<Ver<T>>(self.slots.len() as int, ENTRIES_PER_BAG as nat),
                ),
            },
            slots: self.slots + cells,
            ..self
        }
    }
}

/// A shorter arena is addressable if a longer one is.
pub proof fn lemma_addressable_less<T>(len: int, longer: int)
    requires
        addressable::<T>(longer),
        0 <= len <= longer,
    ensures
        addressable::<T>(len),
{
    broadcast use vstd::layout::align_nonzero;

    let a = vstd::layout::align_of::<T>() as int;
    assert(len * a <= longer * a) by (nonlinear_arith)
        requires
            0 <= len <= longer,
            a > 0,
    ;
}

/// The addresses of 64 cells in a row that lie within an arena are addresses
/// of that arena.
pub proof fn lemma_fresh_addrs_are_slots<T>(first: int, len: int)
    requires
        0 <= first,
        first + ENTRIES_PER_BAG <= len,
        addressable::<T>(len),
    ensures
        forall|j: int|
            0 <= j < ENTRIES_PER_BAG ==> is_addr::<T>(
                (#[trigger] fresh_addrs::<T>(first, ENTRIES_PER_BAG as nat)[j]) as int,
                len,
            ),
{
    assert forall|j: int| 0 <= j < ENTRIES_PER_BAG implies is_addr::<T>(
        (#[trigger] fresh_addrs::<T>(first, ENTRIES_PER_BAG as nat)[j]) as int,
        len,
    ) by {
        lemma_addr_of_index::<T>(first + j, len);
    }
}

/// The pool of one kind of payload.
pub struct Global<T> {
    epoch: u64,
    avail: BagStack<Ver<T>>,
    slots: Vec<Ver<T>>,
    holders: Ghost<Map<usize, nat>>,
    locals: Ghost<nat>,
}

impl<T> View for Global<T> {
    type V = GlobalView<T>;

    closed spec fn view(&self) -> GlobalView<T> {
        GlobalView {
            epoch: self.epoch,
            avail: self.avail@,
            slots: Seq::new(self.slots@.len(), |i: int| self.slots@[i]@),
            holders: self.holders@,
            locals: self.locals@,
        }
    }
}

impl<T> Global<T> {
    /// Whether the stack of the pool is linked as its chain says.
    pub closed spec fn links_hold(&self) -> bool {
        self.avail.links_hold()
    }

    /// The invariant of the pool.
    pub open spec fn wf(&self) -> bool {
        self@.wf() && self.links_hold()
    }

    /// The link of the bag `bag`: the stamped word that a push wrote into it,
    /// or zero once a pop has cleared it.
    pub closed spec fn link_of(&self, bag: usize) -> u128 {
        self.avail.link_of(bag)
    }

    /// The head word of the stack of available bags: the stamp above the
    /// handle of the top bag.
    pub open spec fn head_word(&self) -> u128 {
        pack(self@.avail.stamp, handle_at(self@.avail.chain, 0))
    }

    /// Whether every bag of `before` but `except` has the link that it had in
    /// `before`. No bag has the handle zero: with zero, every bag is meant.
    pub open spec fn links_kept(&self, before: &Self, except: usize) -> bool {
        forall|bag: usize|
            before@.avail.is_bag(bag) && bag != except ==> #[trigger] self.link_of(bag)
                == before.link_of(bag)
    }

    /// A pool with room for `capacity` slots, in bags of 64: the clock stands
    /// at zero, every slot is fresh, and all bags are available, the last one
    /// made on top.
    pub fn new(capacity: usize) -> (pool: Self) where T: Default
        requires
            addressable::<Ver<T>>(bags_for(capacity) * ENTRIES_PER_BAG),
        ensures
            pool.wf(),
            pool@.epoch == 0,
            pool@.avail == (StackView {
                stamp: bags_for(capacity) as u64,
                chain: countdown(bags_for(capacity)),
                bags: Seq::new(
                    bags_for(capacity),
                    |k: int| fresh_addrs::<Ver<T>>(k * ENTRIES_PER_BAG, ENTRIES_PER_BAG as nat),
                ),
            }),
            pool@.slots.len() == bags_for(capacity) * ENTRIES_PER_BAG,
            forall|i: int| 0 <= i < pool@.slots.len() ==> (#[trigger] pool@.slots[i]).is_fresh(),
            pool@.holders == Map::<usize, nat>::empty(),
            pool@.locals == 0,
    {
        let mut avail: BagStack<Ver<T>> = BagStack::new();
        let mut slots: Vec<Ver<T>> = Vec::new();
        let count: usize = capacity / ENTRIES_PER_BAG + if capacity % ENTRIES_PER_BAG > 0 {
            1
        } else {
            0
        };
        let mut made: usize = 0;
        assert(avail@.chain =~= countdown(0));
        assert(avail@.bags =~= Seq::new(
            0,
            |k: int| fresh_addrs::<Ver<T>>(k * ENTRIES_PER_BAG, ENTRIES_PER_BAG as nat),
        ));
        while made < count
            invariant
                made <= count,
                count == bags_for(capacity),
                addressable::<Ver<T>>(count * ENTRIES_PER_BAG),
                avail.wf(),
                avail@.stamp == made,
                avail@.chain == countdown(made as nat),
                avail@.bags == Seq::new(
                    made as nat,
                    |k: int| fresh_addrs::<Ver<T>>(k * ENTRIES_PER_BAG, ENTRIES_PER_BAG as nat),
                ),
                slots@.len() == made * ENTRIES_PER_BAG,
                forall|i: int| 0 <= i < slots@.len() ==> (#[trigger] slots@[i])@.is_fresh(),
            decreases count - made,
        {
            let ghost before = slots@;
            proof {
                lemma_addressable_less::<Ver<T>>(
                    slots@.len() + ENTRIES_PER_BAG,
                    count * ENTRIES_PER_BAG,
                );
            }
            let bag = Bag::new_with_alloc(&mut slots);
            assert forall|i: int| 0 <= i < slots@.len() implies (#[trigger] slots@[i])@.is_fresh() by {
                if i < before.len() {
                    assert(slots@[i] == slots@.subrange(0, before.len() as int)[i]);
                }
            }
            let handle = avail.adopt(bag);
            avail.push(handle);
            made = made + 1;
            assert(avail@.chain =~= countdown(made as nat));
            assert(avail@.bags =~= Seq::new(
                made as nat,
                |k: int| fresh_addrs::<Ver<T>>(k * ENTRIES_PER_BAG, ENTRIES_PER_BAG as nat),
            ));
        }
        let pool = Global { epoch: 0, avail, slots, holders: Ghost(Map::empty()), locals: Ghost(0) };
        proof {
            assert forall|bag: usize, j: int|
                pool@.avail.is_bag(bag) && 0 <= j < pool@.avail.entries(bag).len() implies pool@.is_slot(
                #[trigger] pool@.avail.entries(bag)[j],
            ) by {
                lemma_fresh_addrs_are_slots::<Ver<T>>(
                    (bag - 1) * ENTRIES_PER_BAG,
                    pool@.slots.len() as int,
                );
            }
        }
        pool
    }

    /// Returns the current epoch.
    pub fn epoch(&self) -> (epoch: u64)
        ensures
            epoch == self@.epoch,
    {
        self.epoch
    }

    /// Whether a pool with room for `capacity` slots can be made: whether
    /// all of its slots have addresses.
    pub fn fits(capacity: usize) -> (fits: bool)
        ensures
            fits == addressable::<Ver<T>>(bags_for(capacity) * ENTRIES_PER_BAG),
    {
        let count: usize = capacity / ENTRIES_PER_BAG + if capacity % ENTRIES_PER_BAG > 0 {
            1
        } else {
            0
        };
        if count > usize::MAX / ENTRIES_PER_BAG {
            proof {
                broadcast use vstd::layout::align_nonzero;

                let a = vstd::layout::align_of::<Ver<T>>() as int;
                assert(count * ENTRIES_PER_BAG * a >= count * ENTRIES_PER_BAG) by (nonlinear_arith)
                    requires
                        a >= 1,
                        count >= 0,
                ;
            }
            false
        } else {
            is_addressable::<Ver<T>>(count * ENTRIES_PER_BAG)
        }
    }

    /// Whether the pool can make `bags` more bags of new slots.
    pub fn has_room(&self, bags: usize) -> (room: bool)
        ensures
            room == self@.can_grow_by(bags as nat),
    {
        let stamp: u64 = self.avail.stamp();
        let slots: usize = self.slots.len();
        if bags > usize::MAX / ENTRIES_PER_BAG || bags * ENTRIES_PER_BAG > usize::MAX - slots {
            proof {
                broadcast use vstd::layout::align_nonzero;

                let a = vstd::layout::align_of::<Ver<T>>() as int;
                let len = slots + bags * ENTRIES_PER_BAG;
                assert(len * a >= len) by (nonlinear_arith)
                    requires
                        a >= 1,
                        len >= 0,
                ;
            }
            return false;
        }
        if bags as u64 > u64::MAX - stamp {
            return false;
        }
        is_addressable::<Ver<T>>(slots + bags * ENTRIES_PER_BAG)
    }

    /// The number of slots that the pool has made.
    pub fn slot_count(&self) -> (count: usize)
        ensures
            count == self@.slots.len(),
    {
        self.slots.len()
    }

    /// The number of bags that the pool and its caches have made.
    pub fn bag_count(&self) -> (count: usize)
        ensures
            count == self@.avail.bags.len(),
    {
        self.avail.bag_count()
    }

    /// The number of bags that were pushed on the stack of available bags so
    /// far.
    pub fn stamp(&self) -> (stamp: u64)
        ensures
            stamp == self@.avail.stamp,
    {
        self.avail.stamp()
    }

    /// Attempts one step of the clock, from `expected` to `expected + 1`. The
    /// step is taken if the clock stands at `expected`; it gives the new
    /// epoch. Otherwise the pool is left as it is and the epoch that was found
    /// is returned as the error.
    pub fn advance(&mut self, expected: u64) -> (res: Result<u64, u64>)
        requires
            old(self).wf(),
            expected < u64::MAX,
        ensures
            final(self).wf(),
            old(self)@.epoch == expected ==> res == Ok::<u64, u64>((expected + 1) as u64)
                && final(self)@ == (GlobalView { epoch: (expected + 1) as u64, ..old(self)@ }),
            old(self)@.epoch != expected ==> res == Err::<u64, u64>(old(self)@.epoch) && final(self)@ == old(self)@,
    {
        if self.epoch == expected {
            self.epoch = expected + 1;
            Ok(expected + 1)
        } else {
            Err(self.epoch)
        }
    }

    /// Hands out a bag of available slots: the top bag of the stack, or, if
    /// the stack is empty, a bag of 64 new slots, which the pool makes, pushes
    /// and pops. The pool never shrinks.
    pub fn acquire(&mut self) -> (bag: usize) where T: Default
        requires
            old(self).wf(),
            old(self)@.avail.chain.len() == 0 ==> old(self)@.can_grow(),
        ensures
            final(self).wf(),
            final(self)@.avail.is_out(bag),
            !final(self)@.holders.contains_key(bag),
            final(self).link_of(bag) == 0,
            final(self).links_kept(old(self), bag),
            old(self)@.avail.chain.len() > 0 ==> bag == old(self)@.avail.chain[0] && final(self)@
                == (GlobalView { avail: old(self)@.avail.popped(), ..old(self)@ }),
            old(self)@.avail.chain.len() == 0 ==> bag == old(self)@.avail.bags.len() + 1
                && final(self)@.slots.len() == old(self)@.slots.len() + ENTRIES_PER_BAG && final(self)@ == old(self)@.grown(
                final(self)@.slots.subrange(
                    old(self)@.slots.len() as int,
                    old(self)@.slots.len() + ENTRIES_PER_BAG,
                ),
            ) && forall|i: int|
                old(self)@.slots.len() <= i < final(self)@.slots.len() ==> (
                #[trigger] final(self)@.slots[i]).is_fresh(),
    {
        let ghost mut grew = false;
        let ghost mut made: usize = 0;
        loop
            invariant
                self.wf(),
                !grew ==> *self == *old(self),
                grew ==> self.links_kept(old(self), 0),
                grew ==> {
                    &&& old(self)@.avail.chain.len() == 0
                    &&& made == old(self)@.avail.bags.len() + 1
                    &&& self@.epoch == old(self)@.epoch
                    &&& self@.holders == old(self)@.holders
                    &&& self@.locals == old(self)@.locals
                    &&& self@.slots.len() == old(self)@.slots.len() + ENTRIES_PER_BAG
                    &&& self@.slots.subrange(0, old(self)@.slots.len() as int) == old(self)@.slots
                    &&& forall|i: int|
                        old(self)@.slots.len() <= i < self@.slots.len() ==> (
                        #[trigger] self@.slots[i]).is_fresh()
                    &&& self@.avail.stamp == old(self)@.avail.stamp + 1
                    &&& self@.avail.chain == seq![made]
                    &&& self@.avail.bags == old(self)@.avail.bags.push(
                        fresh_addrs::<Ver<T>>(
                            old(self)@.slots.len() as int,
                            ENTRIES_PER_BAG as nat,
                        ),
                    )
                },
                self@.avail.chain.len() == 0 ==> self@.can_grow(),
            decreases
                    (if self@.avail.chain.len() > 0 {
                        0int
                    } else {
                        1int
                    }),
        {
            let ghost before = *self;
            if let Some(bag) = self.avail.pop() {
                proof {
                    assert(before@.avail.chain.contains(bag));
                    assert forall|other: usize| #[trigger]
                        self@.holders.contains_key(other) implies self@.avail.is_out(other) by {
                        assert(before@.holders.contains_key(other));
                        if self@.avail.chain.contains(other) {
                            let k = choose|k: int|
                                0 <= k < self@.avail.chain.len() && self@.avail.chain[k] == other;
                            assert(before@.avail.chain[k + 1] == other);
                        }
                    }
                    self.lemma_stack_moved(before);
                    if self@.avail.chain.contains(bag) {
                        let k = choose|k: int|
                            0 <= k < self@.avail.chain.len() && self@.avail.chain[k] == bag;
                        assert(before@.avail.chain[k + 1] == bag);
                    }
                    if self@.holders.contains_key(bag) {
                        assert(before@.holders.contains_key(bag));
                    }
                    assert forall|other: usize|
                        old(self)@.avail.is_bag(other) && other != bag implies #[trigger] self.link_of(
                        other,
                    ) == old(self).link_of(other) by {
                        assert(before@.avail.is_bag(other));
                        assert(self.avail.link_of(other) == before.avail.link_of(other));
                        if grew {
                            assert(before.link_of(other) == old(self).link_of(other));
                        }
                    }
                    if grew {
                        let first = old(self)@.slots.len() as int;
                        let cells = self@.slots.subrange(first, first + ENTRIES_PER_BAG);
                        assert(self@.avail.chain =~= old(self)@.avail.chain);
                        assert(self@.slots =~= old(self)@.slots + cells) by {
                            assert forall|i: int| 0 <= i < first implies self@.slots[i] == old(self)@.slots[i] by {
                                assert(self@.slots[i] == self@.slots.subrange(0, first)[i]);
                            }
                        }
                    }
                }
                return bag;
            } else {
                let ghost first = self.slots@.len();
                let bag = Bag::new_with_alloc(&mut self.slots);
                let handle = self.avail.adopt(bag);
                self.avail.push(handle);
                proof {
                    grew = true;
                    made = handle;
                    assert(self@.slots.subrange(0, first as int) =~= before@.slots) by {
                        assert forall|i: int| 0 <= i < first implies self@.slots[i]
                            == before@.slots[i] by {
                            assert(self.slots@[i] == self.slots@.subrange(0, first as int)[i]);
                        }
                    }
                    assert(self@.avail.chain =~= seq![handle]);
                    assert forall|i: int| first <= i < self@.slots.len() implies (
                    #[trigger] self@.slots[i]).is_fresh() by {
                        assert(call_ensures(Ver::<T>::default, (), self.slots@[i]));
                    }
                    self.lemma_grown(before, handle);
                }
            }
        }
    }

    /// Takes the bag `bag`, which is out, back into the stack of available
    /// bags. Whoever held it holds it no longer.
    pub fn retire(&mut self, bag: usize)
        requires
            old(self).wf(),
            old(self)@.avail.is_out(bag),
            old(self)@.avail.stamp < u64::MAX,
        ensures
            final(self).wf(),
            final(self)@ == (GlobalView {
                avail: old(self)@.avail.pushed(bag),
                holders: old(self)@.holders.remove(bag),
                ..old(self)@
            }),
            final(self).link_of(bag) == old(self).head_word(),
            final(self).links_kept(old(self), bag),
    {
        let ghost before = *self;
        self.avail.push(bag);
        self.holders = Ghost(self.holders@.remove(bag));
        proof {
            self.lemma_stack_moved(before);
            assert forall|other: usize| #[trigger]
                self@.holders.contains_key(other) implies self@.avail.is_out(other) by {
                assert(before@.avail.is_out(other));
                if self@.avail.chain.contains(other) {
                    let k = choose|k: int|
                        0 <= k < self@.avail.chain.len() && self@.avail.chain[k] == other;
                    assert(before@.avail.chain[k - 1] == other);
                }
            }
        }
    }

    /// Moves `bag`, which holds addresses of slots of this pool, into the
    /// arena of bags and returns its handle. The bag is out.
    pub fn adopt(&mut self, bag: Bag<Ver<T>>) -> (handle: usize)
        requires
            old(self).wf(),
            bag@.len() <= ENTRIES_PER_BAG,
            forall|j: int| 0 <= j < bag@.len() ==> old(self)@.is_slot(#[trigger] bag@[j]),
        ensures
            final(self).wf(),
            handle == old(self)@.avail.bags.len() + 1,
            final(self)@ == (GlobalView { avail: old(self)@.avail.adopted(bag@), ..old(self)@ }),
            final(self)@.avail.is_out(handle),
            !final(self)@.holders.contains_key(handle),
            final(self).link_of(handle) == bag.next_word(),
            final(self).links_kept(old(self), 0),
    {
        let ghost before = *self;
        let handle = self.avail.adopt(bag);
        proof {
            assert forall|other: usize, j: int|
                self@.avail.is_bag(other) && 0 <= j < self@.avail.entries(other).len() implies self@.is_slot(
                #[trigger] self@.avail.entries(other)[j],
            ) by {
                if other != handle {
                    assert(before@.avail.is_bag(other));
                    assert(self@.avail.entries(other) == before@.avail.entries(other));
                }
            }
            assert forall|other: usize| #[trigger]
                self@.holders.contains_key(other) implies self@.avail.is_out(other) by {
                assert(before@.avail.is_out(other));
            }
            if self@.holders.contains_key(handle) {
                assert(before@.avail.is_out(handle));
            }
        }
        handle
    }

    /// Adds the address `obj` of a slot on top of the bag `bag`, unless the bag
    /// is full.
    pub fn bag_push(&mut self, bag: usize, obj: usize) -> (pushed: bool)
        requires
            old(self).wf(),
            old(self)@.avail.is_bag(bag),
            old(self)@.is_slot(obj),
        ensures
            final(self).wf(),
            pushed == (old(self)@.avail.entries(bag).len() < ENTRIES_PER_BAG),
            pushed ==> final(self)@ == (GlobalView {
                avail: old(self)@.avail.with_entries(
                    bag,
                    old(self)@.avail.entries(bag).push(obj),
                ),
                ..old(self)@
            }),
            !pushed ==> final(self)@ == old(self)@,
            final(self).links_kept(old(self), 0),
    {
        let ghost before = *self;
        let pushed = self.avail.bag_push(bag, obj);
        proof {
            self.lemma_entries_changed(before, bag);
        }
        pushed
    }

    /// Takes the address on top of the bag `bag`, if there is one.
    pub fn bag_pop(&mut self, bag: usize) -> (obj: Option<usize>)
        requires
            old(self).wf(),
            old(self)@.avail.is_bag(bag),
        ensures
            final(self).wf(),
            old(self)@.avail.entries(bag).len() == 0 ==> obj.is_none() && final(self)@ == old(self)@,
            old(self)@.avail.entries(bag).len() > 0 ==> obj == Some(
                old(self)@.avail.entries(bag).last(),
            ) && old(self)@.is_slot(old(self)@.avail.entries(bag).last()) && final(self)@ == (
            GlobalView {
                avail: old(self)@.avail.with_entries(
                    bag,
                    old(self)@.avail.entries(bag).drop_last(),
                ),
                ..old(self)@
            }),
            final(self).links_kept(old(self), 0),
    {
        let ghost before = *self;
        let obj = self.avail.bag_pop(bag);
        proof {
            self.lemma_entries_changed(before, bag);
            if before@.avail.entries(bag).len() > 0 {
                let last = before@.avail.entries(bag).len() - 1;
                assert(before@.is_slot(before@.avail.entries(bag)[last]));
            }
        }
        obj
    }

    /// The slot at the address `addr`.
    pub fn ver(&self, addr: usize) -> (slot: &Ver<T>)
        requires
            self@.is_slot(addr),
        ensures
            slot@ == self@.slot(addr),
    {
        proof {
            lemma_index_of_addr::<Ver<T>>(addr as int, self@.slots.len() as int);
        }
        &self.slots[slot_index::<Ver<T>>(addr)]
    }

    /// Starts a new incarnation in the slot at `addr`: born at `epoch`, not
    /// retired. The payload stays as the last incarnation left it.
    pub(crate) fn reincarnate(&mut self, addr: usize, epoch: u64)
        requires
            old(self).wf(),
            old(self)@.is_slot(addr),
            epoch <= old(self)@.epoch,
        ensures
            final(self).wf(),
            final(self)@ == old(self)@.with_slot(addr, old(self)@.slot(addr).reborn(epoch)),
    {
        let ghost before = *self;
        proof {
            lemma_index_of_addr::<Ver<T>>(addr as int, self@.slots.len() as int);
        }
        let index: usize = slot_index::<Ver<T>>(addr);
        self.slots[index].birth = epoch;
        self.slots[index].retire = NOT_RETIRED;
        proof {
            self.lemma_slot_changed(before, index as int);
        }
    }

    /// Stamps the slot at `addr` as retired at `epoch`.
    pub(crate) fn stamp_retired(&mut self, addr: usize, epoch: u64)
        requires
            old(self).wf(),
            old(self)@.is_slot(addr),
            old(self)@.slot(addr).birth <= epoch <= old(self)@.epoch,
        ensures
            final(self).wf(),
            final(self)@ == old(self)@.with_slot(addr, old(self)@.slot(addr).retired(epoch)),
    {
        let ghost before = *self;
        proof {
            lemma_index_of_addr::<Ver<T>>(addr as int, self@.slots.len() as int);
        }
        let index: usize = slot_index::<Ver<T>>(addr);
        self.slots[index].retire = epoch;
        proof {
            self.lemma_slot_changed(before, index as int);
        }
    }

    /// Replaces the payload of the slot at `addr`.
    pub(crate) fn store(&mut self, addr: usize, data: T)
        requires
            old(self).wf(),
            old(self)@.is_slot(addr),
        ensures
            final(self).wf(),
            final(self)@ == old(self)@.with_slot(
                addr,
                SlotView { data, ..old(self)@.slot(addr) },
            ),
    {
        let ghost before = *self;
        proof {
            lemma_index_of_addr::<Ver<T>>(addr as int, self@.slots.len() as int);
        }
        let index: usize = slot_index::<Ver<T>>(addr);
        self.slots[index].data = data;
        proof {
            self.lemma_slot_changed(before, index as int);
        }
    }

    /// Gives the next cache its number.
    pub(crate) fn register(&mut self) -> (id: Ghost<nat>)
        requires
            old(self).wf(),
        ensures
            final(self).wf(),
            id@ == old(self)@.locals,
            final(self)@ == (GlobalView { locals: old(self)@.locals + 1, ..old(self)@ }),
    {
        let ghost before = *self;
        let id = Ghost(self.locals@);
        self.locals = Ghost(self.locals@ + 1);
        proof {
            assert(self@.slots =~= before@.slots);
            assert forall|bag: usize| #[trigger]
                self@.holders.contains_key(bag) implies self@.avail.is_out(bag)
                && self@.holders[bag] < self@.locals by {
                assert(before@.holders.contains_key(bag));
            }
        }
        id
    }

    /// Notes that the bag `bag`, which is out, is held by the cache `id`.
    pub(crate) fn claim(&mut self, bag: usize, id: Ghost<nat>)
        requires
            old(self).wf(),
            old(self)@.avail.is_out(bag),
            id@ < old(self)@.locals,
        ensures
            final(self).wf(),
            final(self)@ == (GlobalView {
                holders: old(self)@.holders.insert(bag, id@),
                ..old(self)@
            }),
    {
        let ghost before = *self;
        self.holders = Ghost(self.holders@.insert(bag, id@));
        proof {
            assert(self@.slots =~= before@.slots);
            assert forall|other: usize| #[trigger]
                self@.holders.contains_key(other) implies self@.avail.is_out(other)
                && self@.holders[other] < self@.locals by {
                if other != bag {
                    assert(before@.holders.contains_key(other));
                }
            }
        }
    }

    /// The pool keeps its invariant when one slot changes and its stamps
    /// agree with the clock.
    proof fn lemma_slot_changed(self, before: Self, index: int)
        requires
            before.wf(),
            0 <= index < before.slots@.len(),
            self.avail == before.avail,
            self.epoch == before.epoch,
            self.locals == before.locals,
            self.holders == before.holders,
            self.slots@.len() == before.slots@.len(),
            forall|i: int|
                0 <= i < self.slots@.len() && i != index ==> self.slots@[i] == before.slots@[i],
            self.slots@[index]@.wf(self.epoch),
        ensures
            self.wf(),
            self@ == (GlobalView {
                slots: before@.slots.update(index, self.slots@[index]@),
                ..before@
            }),
    {
        assert(self@.slots =~= before@.slots.update(index, self.slots@[index]@));
        assert forall|i: int| 0 <= i < self@.slots.len() implies (#[trigger] self@.slots[i]).wf(
            self@.epoch,
        ) by {
            if i != index {
                assert(before@.slots[i].wf(before@.epoch));
            }
        }
        assert forall|bag: usize, j: int|
            self@.avail.is_bag(bag) && 0 <= j < self@.avail.entries(bag).len() implies self@.is_slot(
            #[trigger] self@.avail.entries(bag)[j],
        ) by {
            assert(before@.is_slot(before@.avail.entries(bag)[j]));
        }
        assert forall|bag: usize| #[trigger]
            self@.holders.contains_key(bag) implies self@.avail.is_out(bag) && self@.holders[bag]
            < self@.locals by {
            assert(before@.holders.contains_key(bag));
        }
    }

    /// The pool keeps its invariant when bags are linked or unlinked and
    /// nothing else changes.
    proof fn lemma_stack_moved(self, before: Self)
        requires
            before.wf(),
            self.avail.wf(),
            self@.avail.bags == before@.avail.bags,
            self.epoch == before.epoch,
            self.slots == before.slots,
            self.locals == before.locals,
            forall|bag: usize| #[trigger]
                self@.holders.contains_key(bag) ==> before@.holders.contains_key(bag)
                    && self@.holders[bag] == before@.holders[bag] && self@.avail.is_out(bag),
        ensures
            self.wf(),
            self@.slots == before@.slots,
    {
        assert(self@.slots =~= before@.slots);
        assert forall|bag: usize, j: int|
            self@.avail.is_bag(bag) && 0 <= j < self@.avail.entries(bag).len() implies self@.is_slot(
            #[trigger] self@.avail.entries(bag)[j],
        ) by {
            assert(before@.avail.is_bag(bag));
            assert(before@.is_slot(before@.avail.entries(bag)[j]));
        }
    }

    /// The pool keeps its invariant when the addresses in one bag change and
    /// all of them are addresses of slots.
    proof fn lemma_entries_changed(self, before: Self, bag: usize)
        requires
            before.wf(),
            self.avail.wf(),
            before@.avail.is_bag(bag),
            self@.avail.stamp == before@.avail.stamp,
            self@.avail.chain == before@.avail.chain,
            self@.avail.bags.len() == before@.avail.bags.len(),
            forall|other: usize|
                before@.avail.is_bag(other) && other != bag ==> #[trigger] self@.avail.entries(
                    other,
                ) == before@.avail.entries(other),
            self.epoch == before.epoch,
            self.slots == before.slots,
            self.locals == before.locals,
            self.holders == before.holders,
            forall|j: int|
                0 <= j < self@.avail.entries(bag).len() ==> {
                    ||| self@.avail.entries(bag)[j] == before@.avail.entries(bag)[j] && j
                        < before@.avail.entries(bag).len()
                    ||| before@.is_slot(#[trigger] self@.avail.entries(bag)[j])
                },
        ensures
            self.wf(),
            self@ == (GlobalView { avail: self@.avail, ..before@ }),
    {
        assert(self@.slots =~= before@.slots);
        assert forall|other: usize, j: int|
            self@.avail.is_bag(other) && 0 <= j < self@.avail.entries(other).len() implies self@.is_slot(
            #[trigger] self@.avail.entries(other)[j],
        ) by {
            assert(before@.avail.is_bag(other));
            if other != bag {
                assert(before@.is_slot(before@.avail.entries(other)[j]));
            } else if self@.avail.entries(bag)[j] == before@.avail.entries(bag)[j] && j
                < before@.avail.entries(bag).len() {
                assert(before@.is_slot(before@.avail.entries(bag)[j]));
            }
        }
        assert forall|other: usize| #[trigger]
            self@.holders.contains_key(other) implies self@.avail.is_out(other) by {
            assert(before@.holders.contains_key(other));
            assert(before@.avail.is_out(other));
        }
    }

    /// The pool keeps its invariant when it makes a bag of new slots and
    /// pushes it.
    proof fn lemma_grown(self, before: Self, handle: usize) where T: Default
        requires
            before.wf(),
            handle == before@.avail.bags.len() + 1,
            before@.can_grow(),
            self.avail.wf(),
            self.epoch == before.epoch,
            self.locals == before.locals,
            self.holders == before.holders,
            self@.slots.len() == before@.slots.len() + ENTRIES_PER_BAG,
            self@.slots.subrange(0, before@.slots.len() as int) == before@.slots,
            forall|i: int|
                before@.slots.len() <= i < self@.slots.len() ==> (#[trigger] self@.slots[i]).is_fresh(),
            self@.avail == before@.avail.adopted(
                fresh_addrs::<Ver<T>>(before@.slots.len() as int, ENTRIES_PER_BAG as nat),
            ).pushed(handle),
        ensures
            self.wf(),
    {
        assert forall|i: int| 0 <= i < self@.slots.len() implies (#[trigger] self@.slots[i]).wf(
            self@.epoch,
        ) by {
            if i < before@.slots.len() {
                assert(self@.slots[i] == self@.slots.subrange(0, before@.slots.len() as int)[i]);
                assert(before@.slots[i].wf(before@.epoch));
            }
        }
        assert forall|bag: usize, j: int|
            self@.avail.is_bag(bag) && 0 <= j < self@.avail.entries(bag).len() implies self@.is_slot(
            #[trigger] self@.avail.entries(bag)[j],
        ) by {
            if bag != handle {
                assert(before@.avail.is_bag(bag));
                assert(before@.is_slot(before@.avail.entries(bag)[j]));
            } else {
                lemma_fresh_addrs_are_slots::<Ver<T>>(
                    before@.slots.len() as int,
                    self@.slots.len() as int,
                );
            }
        }
        assert(self@.avail.entries(handle) == fresh_addrs::<Ver<T>>(
            before@.slots.len() as int,
            ENTRIES_PER_BAG as nat,
        ));
        assert forall|other: usize| #[trigger]
            self@.holders.contains_key(other) implies self@.avail.is_out(other)
            && self@.holders[other] < self@.locals by {
            assert(before@.holders.contains_key(other));
            assert(before@.avail.is_out(other));
            assert(self@.avail.chain[0] == handle);
            if self@.avail.chain.contains(other) {
                let k = choose|k: int|
                    0 <= k < self@.avail.chain.len() && self@.avail.chain[k] == other;
                if k > 0 {
                    assert(before@.avail.chain[k - 1] == other);
                }
            }
        }
    }
}

} // verus!
