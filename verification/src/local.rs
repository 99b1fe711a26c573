//! The cache of one thread: the bags it allocates from and the bags that
//! collect what it retires.

use vstd::prelude::*;
use core::marker::PhantomData;
use std::collections::VecDeque;
use crate::bag::{Bag, ENTRIES_PER_BAG};
use crate::global::{lemma_addressable_less, Global, GlobalView, SlotView, Ver};
use crate::guard::Guard;

verus! {

/// The number of bags that a cache fetches from the pool at a time.
pub const INIT_BAGS_PER_LOCAL: usize = 16;

/// The cache of one thread. It holds bags of the pool by their handles: the
/// bags it allocates from, front first, and the bags that take what it retires.
pub struct Local<T> {
    avail: VecDeque<usize>,
    retired: VecDeque<usize>,
    id: Ghost<nat>,
    _marker: PhantomData<T>,
}

/// What a cache is: its two queues of handles and its number.
pub struct LocalView {
    pub avail: Seq<usize>,
    pub retired: Seq<usize>,
    pub id: nat,
}

impl LocalView {
    /// All the bags that the cache holds.
    pub open spec fn bags(self) -> Seq<usize> {
        self.avail + self.retired
    }

    /// Whether the cache belongs to `pool`: the pool knows its number, and
    /// every bag in its queues is noted there as held by it, and none twice.
    pub open spec fn wf<T>(self, pool: GlobalView<T>) -> bool {
        &&& self.id < pool.locals
        &&& self.bags().no_duplicates()
        &&& forall|i: int|
            0 <= i < self.bags().len() ==> pool.holders.contains_key(#[trigger] self.bags()[i])
                && pool.holders[self.bags()[i]] == self.id
    }
}

impl LocalView {
    /// The bag number `i` among those that the cache looks through for a
    /// slot: its own bags to allocate from, front first, then what the pool
    /// hands out.
    pub open spec fn candidate<T>(self, pool: GlobalView<T>, i: int) -> usize {
        if i < self.avail.len() {
            self.avail[i]
        } else {
            pool.acquired_at(i - self.avail.len())
        }
    }

    /// The addresses in the candidate number `i` when the cache comes to it.
    pub open spec fn candidate_entries<T>(self, pool: GlobalView<T>, i: int) -> Seq<usize> {
        if i < self.avail.len() + pool.avail.chain.len() {
            pool.avail.entries(self.candidate(pool, i))
        } else {
            pool.made_entries(i - self.avail.len() - pool.avail.chain.len())
        }
    }

    /// The candidates from number `from` up to, not including, number `to`.
    pub open spec fn candidates<T>(self, pool: GlobalView<T>, from: int, to: int) -> Seq<usize> {
        Seq::new((to - from) as nat, |i: int| self.candidate(pool, from + i))
    }

    /// The number of the first candidate at or after `from` that holds a slot.
    /// The bags that the pool makes are full, so there is one.
    pub open spec fn first_supply<T>(self, pool: GlobalView<T>, from: int) -> int
        decreases self.avail.len() + pool.avail.chain.len() - from,
    {
        if from >= self.avail.len() + pool.avail.chain.len() {
            from
        } else if self.candidate_entries(pool, from).len() > 0 {
            from
        } else {
            self.first_supply(pool, from + 1)
        }
    }

    /// The number of the first bag for the retired at or after `from` that
    /// has room, or the number of such bags if none has.
    pub open spec fn first_room<T>(self, pool: GlobalView<T>, from: int) -> int
        decreases self.retired.len() - from,
    {
        if from >= self.retired.len() {
            from
        } else if pool.avail.entries(self.retired[from]).len() < ENTRIES_PER_BAG {
            from
        } else {
            self.first_room(pool, from + 1)
        }
    }

    /// The cache after it filed a retired slot: the full bags in front of
    /// the first one with room went back to the pool; if none had room, a new
    /// bag is the only one left.
    pub open spec fn after_push<T>(self, pool: GlobalView<T>) -> LocalView {
        let k = self.first_room(pool, 0);
        LocalView {
            retired: if k < self.retired.len() {
                self.retired.skip(k)
            } else {
                seq![(pool.avail.bags.len() + 1) as usize]
            },
            ..self
        }
    }

    /// The pool after the cache filed the retired slot at `ver`.
    pub open spec fn pool_after_push<T>(self, pool: GlobalView<T>, ver: usize) -> GlobalView<T> {
        let k = self.first_room(pool, 0);
        let handed = pool.after_retires(self.retired.take(k));
        if k < self.retired.len() {
            GlobalView {
                avail: handed.avail.with_entries(
                    self.retired[k],
                    pool.avail.entries(self.retired[k]).push(ver),
                ),
                ..handed
            }
        } else {
            GlobalView {
                avail: handed.avail.adopted(seq![ver]),
                holders: handed.holders.insert((pool.avail.bags.len() + 1) as usize, self.id),
                ..handed
            }
        }
    }

    /// The number of acquires that the cache makes until it holds the
    /// candidate number `p`: none for a bag of its own, else whole batches of
    /// 16.
    pub open spec fn acquires_until(self, p: int) -> nat {
        if p < self.avail.len() {
            0
        } else {
            (((p - self.avail.len()) / (INIT_BAGS_PER_LOCAL as int) + 1) * INIT_BAGS_PER_LOCAL) as nat
        }
    }

    /// The number of acquires that the next pop of a slot makes.
    pub open spec fn fetches<T>(self, pool: GlobalView<T>) -> nat {
        self.acquires_until(self.first_supply(pool, 0))
    }

    /// The bag that the next pop of a slot takes from.
    pub open spec fn next_bag<T>(self, pool: GlobalView<T>) -> usize {
        self.candidate(pool, self.first_supply(pool, 0))
    }

    /// The slot that the next pop gives: the top of the first candidate that
    /// holds one.
    pub open spec fn next_slot<T>(self, pool: GlobalView<T>) -> usize {
        self.candidate_entries(pool, self.first_supply(pool, 0)).last()
    }

    /// The cache after a pop of a slot: the empty candidates before the one
    /// that held a slot have gone to the back of the bags for the retired, and
    /// the rest of what was fetched waits behind the bag that held the slot.
    pub open spec fn after_pop<T>(self, pool: GlobalView<T>) -> LocalView {
        let p = self.first_supply(pool, 0);
        LocalView {
            avail: self.candidates(pool, p, (self.avail.len() + self.fetches(pool)) as int),
            retired: self.retired + self.candidates(pool, 0, p),
            id: self.id,
        }
    }

    /// The pool after the cache fetched what the next pop needs, with the new
    /// slots `cells`, and before the slot left its bag.
    pub open spec fn pool_after_fetch<T>(
        self,
        pool: GlobalView<T>,
        cells: Seq<SlotView<T>>,
    ) -> GlobalView<T> {
        pool.after_acquires(self.fetches(pool), cells).lent(
            pool.acquired(self.fetches(pool)),
            self.id,
        )
    }

    /// The pool after a pop of a slot in which the slots `cells` were made.
    pub open spec fn pool_after_pop<T>(
        self,
        pool: GlobalView<T>,
        cells: Seq<SlotView<T>>,
    ) -> GlobalView<T> {
        let fetched = self.pool_after_fetch(pool, cells);
        GlobalView {
            avail: fetched.avail.with_entries(
                self.next_bag(pool),
                self.candidate_entries(pool, self.first_supply(pool, 0)).drop_last(),
            ),
            ..fetched
        }
    }
}

/// Whether the pool `after` has left alone what the caches other than `id`
/// hold of the pool `before`: every bag that one of them held is still held by
/// it, and no cache lost its number.
pub open spec fn spares_others<T>(after: GlobalView<T>, before: GlobalView<T>, id: nat) -> bool {
    &&& before.locals <= after.locals
    &&& forall|bag: usize| #[trigger]
        before.holders.contains_key(bag) && before.holders[bag] != id
            ==> after.holders.contains_key(bag) && after.holders[bag] == before.holders[bag]
}

/// A cache stays a cache of the pool while the pool leaves its bags alone.
pub proof fn law_spared_cache_stays<T>(
    cache: LocalView,
    after: GlobalView<T>,
    before: GlobalView<T>,
    id: nat,
)
    requires
        cache.wf(before),
        cache.id != id,
        spares_others(after, before, id),
    ensures
        cache.wf(after),
{
    assert forall|i: int| 0 <= i < cache.bags().len() implies after.holders.contains_key(
        #[trigger] cache.bags()[i],
    ) && after.holders[cache.bags()[i]] == cache.id by {
        assert(before.holders.contains_key(cache.bags()[i]));
    }
}

impl<T> View for Local<T> {
    type V = LocalView;

    closed spec fn view(&self) -> LocalView {
        LocalView { avail: self.avail@, retired: self.retired@, id: self.id@ }
    }
}

impl<T> Local<T> {
    /// Whether the cache belongs to `pool`.
    pub open spec fn wf(&self, pool: &Global<T>) -> bool {
        self@.wf(pool@)
    }

    /// A cache for one thread: 16 bags fetched from the pool to allocate
    /// from, and one empty bag, made for the purpose, to take what the thread
    /// retires.
    pub fn new(global: &mut Global<T>) -> (local: Self) where T: Default
        requires
            old(global).wf(),
            old(global)@.can_grow_by(INIT_BAGS_PER_LOCAL as nat),
        ensures
            final(global).wf(),
            local.wf(final(global)),
            spares_others(final(global)@, old(global)@, local@.id),
            local@.id == old(global)@.locals,
            local@.avail == old(global)@.acquired(INIT_BAGS_PER_LOCAL as nat),
            local@.retired == seq![final(global)@.avail.bags.len() as usize],
            final(global)@.slots.len() == old(global)@.slots.len() + old(global)@.made_by(
                INIT_BAGS_PER_LOCAL as nat,
            ) * ENTRIES_PER_BAG,
            forall|i: int|
                old(global)@.slots.len() <= i < final(global)@.slots.len() ==> (
                #[trigger] final(global)@.slots[i]).is_fresh(),
            ({
                let fetched = old(global)@.after_acquires(
                    INIT_BAGS_PER_LOCAL as nat,
                    final(global)@.slots.subrange(
                        old(global)@.slots.len() as int,
                        final(global)@.slots.len() as int,
                    ),
                );
                final(global)@ == (GlobalView {
                    avail: fetched.avail.adopted(Seq::empty()),
                    locals: old(global)@.locals + 1,
                    ..fetched
                }).lent(local@.bags(), local@.id)
            }),
    {
        let ghost g0 = global@;
        let id = global.register();
        let ghost g1 = global@;
        let mut local = Local {
            avail: VecDeque::with_capacity(INIT_BAGS_PER_LOCAL),
            retired: VecDeque::new(),
            id,
            _marker: PhantomData,
        };
        assert(local@.bags() =~= Seq::empty());
        local.refill(global);
        let ghost g2 = global@;
        let ghost l2 = local@;
        let bag = global.adopt(Bag::new());
        let ghost g3 = global@;
        global.claim(bag, id);
        local.retired.push_back(bag);
        proof {
            assert(g1.acquired(INIT_BAGS_PER_LOCAL as nat) =~= g0.acquired(
                INIT_BAGS_PER_LOCAL as nat,
            ));
            assert(local@.avail =~= g0.acquired(INIT_BAGS_PER_LOCAL as nat));
            assert(local@.retired =~= seq![bag]);
            assert forall|i: int| 0 <= i < l2.bags().len() implies g3.holders.contains_key(
                #[trigger] l2.bags()[i],
            ) && g3.holders[l2.bags()[i]] == l2.id by {
                assert(g2.holders.contains_key(l2.bags()[i]));
            }
            lemma_cache_takes_bag(l2, local@, g3, global@, bag);
            let cells = global@.slots.subrange(g0.slots.len() as int, global@.slots.len() as int);
            let fetched = g0.after_acquires(INIT_BAGS_PER_LOCAL as nat, cells);
            let target = (GlobalView {
                avail: fetched.avail.adopted(Seq::empty()),
                locals: g0.locals + 1,
                ..fetched
            }).lent(local@.bags(), local@.id);
            assert(local@.bags() =~= g0.acquired(INIT_BAGS_PER_LOCAL as nat).push(bag));
            assert(target.holders =~= global@.holders) by {
                let a = g0.acquired(INIT_BAGS_PER_LOCAL as nat);
                let b = local@.bags();
                assert forall|h: usize| a.contains(h) implies b.contains(h) by {
                    let k = choose|k: int| 0 <= k < a.len() && a[k] == h;
                    assert(b[k] == h);
                }
                assert(b[a.len() as int] == bag);
                assert forall|h: usize| b.contains(h) implies a.contains(h) || h == bag by {
                    let k = choose|k: int| 0 <= k < b.len() && b[k] == h;
                    if k < a.len() {
                        assert(a[k] == h);
                    }
                }
            }
            assert(target.avail.chain =~= global@.avail.chain);
            assert(target.avail.bags =~= global@.avail.bags);
            assert(target.slots =~= global@.slots);
            assert forall|other: usize| #[trigger]
                g0.holders.contains_key(other) && g0.holders[other] != local@.id implies global@.holders.contains_key(
                other,
            ) && global@.holders[other] == g0.holders[other] by {
                assert(g1.holders.contains_key(other));
            }
        }
        local
    }

    /// The number of bags that the cache allocates from.
    pub fn avail_len(&self) -> (len: usize)
        ensures
            len == self@.avail.len(),
    {
        self.avail.len()
    }

    /// The number of bags that the cache keeps for what it retires.
    pub fn retired_len(&self) -> (len: usize)
        ensures
            len == self@.retired.len(),
    {
        self.retired.len()
    }

    /// A guard pinned to the current epoch of the pool.
    pub fn guard(&self, global: &Global<T>) -> (guard: Guard<T>)
        ensures
            guard@ == global@.epoch,
    {
        Guard::at(global.epoch())
    }

    /// Puts the slot at `ver` back on top of the front bag to allocate from,
    /// unless that bag is full.
    pub fn return_avail(&self, global: &mut Global<T>, ver: usize)
        requires
            old(global).wf(),
            self.wf(old(global)),
            self@.avail.len() > 0,
            old(global)@.is_slot(ver),
        ensures
            final(global).wf(),
            self.wf(final(global)),
            spares_others(final(global)@, old(global)@, self@.id),
            ({
                let front = self@.avail[0];
                let entries = old(global)@.avail.entries(front);
                final(global)@ == if entries.len() < ENTRIES_PER_BAG {
                    GlobalView {
                        avail: old(global)@.avail.with_entries(front, entries.push(ver)),
                        ..old(global)@
                    }
                } else {
                    old(global)@
                }
            }),
    {
        assert(self@.bags()[0] == self@.avail[0]);
        let bag: usize = self.avail[0];
        let _ = global.bag_push(bag, ver);
    }

    /// Pops a slot to allocate: the top of the front bag to allocate from. A
    /// bag that has run out goes to the back of the bags for the retired, and
    /// the next one is tried; when all have run out, 16 more are fetched from
    /// the pool. The pool grows when it has none left, so a slot is always
    /// found.
    pub fn pop_avail(&mut self, global: &mut Global<T>) -> (ver: usize) where T: Default
        requires
            old(global).wf(),
            old(self).wf(old(global)),
            old(self)@.fetches(old(global)@) > 0 ==> old(global)@.can_grow_by(
                INIT_BAGS_PER_LOCAL as nat,
            ),
        ensures
            final(global).wf(),
            final(self).wf(final(global)),
            spares_others(final(global)@, old(global)@, old(self)@.id),
            ver == old(self)@.next_slot(old(global)@),
            final(global)@.is_slot(ver),
            final(self)@ == old(self)@.after_pop(old(global)@),
            final(self)@.avail.len() > 0,
            final(self)@.avail[0] == old(self)@.next_bag(old(global)@),
            old(self)@.candidate_entries(
                old(global)@,
                old(self)@.first_supply(old(global)@, 0),
            ).len() > 0,
            old(self)@.pool_after_fetch(
                old(global)@,
                final(global)@.slots.subrange(
                    old(global)@.slots.len() as int,
                    final(global)@.slots.len() as int,
                ),
            ).avail.entries(old(self)@.next_bag(old(global)@)) == old(self)@.candidate_entries(
                old(global)@,
                old(self)@.first_supply(old(global)@, 0),
            ),
            old(self)@.pool_after_fetch(
                old(global)@,
                final(global)@.slots.subrange(
                    old(global)@.slots.len() as int,
                    final(global)@.slots.len() as int,
                ),
            ).avail.is_bag(old(self)@.next_bag(old(global)@)),
            final(global)@.avail.is_bag(final(self)@.avail[0]),
            final(global)@.avail.entries(final(self)@.avail[0]).len() < ENTRIES_PER_BAG,
            final(global)@ == old(self)@.pool_after_pop(
                old(global)@,
                final(global)@.slots.subrange(
                    old(global)@.slots.len() as int,
                    final(global)@.slots.len() as int,
                ),
            ),
            final(global)@.slots.len() == old(global)@.slots.len() + old(global)@.made_by(
                old(self)@.fetches(old(global)@),
            ) * ENTRIES_PER_BAG,
            old(global)@.made_by(old(self)@.fetches(old(global)@)) <= INIT_BAGS_PER_LOCAL,
            final(global)@.slots.subrange(0, old(global)@.slots.len() as int) == old(global)@.slots,
            forall|i: int|
                old(global)@.slots.len() <= i < final(global)@.slots.len() ==> (
                #[trigger] final(global)@.slots[i]).is_fresh(),
    {
        let ghost g0 = global@;
        let ghost l0 = self@;
        let ghost m = l0.avail.len() as int;
        let ghost c = g0.avail.chain.len() as int;
        let ghost mut p: int = 0;
        let ghost mut n: nat = 0;
        proof {
            lemma_after_no_acquires(g0, l0.id);
            assert(self@.avail =~= l0.candidates(g0, 0, m));
            assert(self@.retired =~= l0.retired + l0.candidates(g0, 0, 0));
        }
        loop
            invariant
                g0 == old(global)@,
                l0 == old(self)@,
                m == l0.avail.len(),
                c == g0.avail.chain.len(),
                g0.wf(),
                l0.wf(g0),
                l0.fetches(g0) > 0 ==> g0.can_grow_by(INIT_BAGS_PER_LOCAL as nat),
                global.wf(),
                self.wf(global),
                0 <= p <= m + n,
                n % (INIT_BAGS_PER_LOCAL as nat) == 0,
                n == 0 || p >= m + n - INIT_BAGS_PER_LOCAL,
                g0.made_by(n) <= INIT_BAGS_PER_LOCAL,
                forall|i: int| 0 <= i < p ==> (#[trigger] l0.candidate_entries(g0, i)).len() == 0,
                l0.first_supply(g0, 0) == l0.first_supply(g0, p),
                self@ == (LocalView {
                    avail: l0.candidates(g0, p, m + n),
                    retired: l0.retired + l0.candidates(g0, 0, p),
                    id: l0.id,
                }),
                global@.slots.len() == g0.slots.len() + g0.made_by(n) * ENTRIES_PER_BAG,
                global@ == g0.after_acquires(
                    n,
                    global@.slots.subrange(g0.slots.len() as int, global@.slots.len() as int),
                ).lent(g0.acquired(n), l0.id),
                forall|i: int|
                    g0.slots.len() <= i < global@.slots.len() ==> (#[trigger] global@.slots[i]).is_fresh(),
            decreases
                    l0.first_supply(g0, 0) - p,
                    (if self@.avail.len() == 0 {
                        1int
                    } else {
                        0int
                    }),
        {
            proof {
                lemma_first_supply_forward(l0, g0, p);
            }
            if self.avail.len() == 0 {
                let ghost g1 = global@;
                proof {
                    assert(p == m + n);
                    assert(l0.fetches(g0) > 0);
                    if n > c {
                        lemma_candidate_now(l0, g0, g1, n, p - 1);
                        assert(l0.candidate_entries(g0, p - 1).len() == 0);
                    }
                    assert(g0.made_by(n) == 0);
                    assert(g1.slots.len() == g0.slots.len());
                }
                self.refill(global);
                proof {
                    lemma_fetch_again(g0, g1, global@, n, l0.id);
                    n = n + INIT_BAGS_PER_LOCAL as nat;
                    assert(self@.avail =~= l0.candidates(g0, p, m + n));
                }
            } else {
                let ghost g1 = global@;
                let ghost l1 = self@;
                let bag: usize = self.avail[0];
                proof {
                    assert(bag == l0.candidate(g0, p));
                    assert(l1.bags()[0] == bag);
                    assert(g1.holders.contains_key(l1.bags()[0]));
                    lemma_candidate_now(l0, g0, g1, n, p);
                }
                if let Some(item) = global.bag_pop(bag) {
                    proof {
                        assert(l0.first_supply(g0, 0) == p);
                        assert(l0.fetches(g0) == n) by {
                            if n > 0 {
                                assert(p - m >= n - INIT_BAGS_PER_LOCAL);
                                assert(p - m < n);
                            }
                        }
                        assert forall|i: int| 0 <= i < self@.bags().len() implies global@.holders.contains_key(
                            #[trigger] self@.bags()[i],
                        ) && global@.holders[self@.bags()[i]] == self@.id by {
                            assert(g1.holders.contains_key(l1.bags()[i]));
                        }
                        lemma_fetch_spares_others(
                            g0,
                            n,
                            global@.slots.subrange(
                                g0.slots.len() as int,
                                global@.slots.len() as int,
                            ),
                            l0.id,
                        );
                        assert(global@.slots.subrange(0, g0.slots.len() as int) =~= g0.slots);
                    }
                    return item;
                } else {
                    let _ = self.avail.pop_front();
                    self.retired.push_back(bag);
                    proof {
                        assert(self@.avail =~= l1.avail.drop_first());
                        lemma_cache_rotates(l1, self@, global@);
                        assert(p < m + c);
                        assert(l0.first_supply(g0, p) == l0.first_supply(g0, p + 1));
                        lemma_first_supply_forward(l0, g0, p + 1);
                        p = p + 1;
                        assert(self@.avail =~= l0.candidates(g0, p, m + n));
                        assert(self@.retired =~= l0.retired + l0.candidates(g0, 0, p));
                    }
                }
            }
        }
    }

    /// Files the retired slot at `ver`: on top of the front bag for the
    /// retired. A bag that is full is handed back to the pool as it is, onto the
    /// stack of available bags, and the next one is tried; when none is left, a
    /// new bag is made for the slot.
    pub fn push_retired(&mut self, global: &mut Global<T>, ver: usize)
        requires
            old(global).wf(),
            old(self).wf(old(global)),
            old(global)@.is_slot(ver),
            old(global)@.avail.stamp + old(self)@.first_room(old(global)@, 0) <= u64::MAX,
        ensures
            final(global).wf(),
            final(self).wf(final(global)),
            spares_others(final(global)@, old(global)@, old(self)@.id),
            final(self)@ == old(self)@.after_push(old(global)@),
            final(global)@ == old(self)@.pool_after_push(old(global)@, ver),
    {
        let ghost g0 = global@;
        let ghost l0 = self@;
        let ghost mut k: int = 0;
        proof {
            lemma_after_no_retires(g0);
            assert(l0.retired.take(0) =~= Seq::empty());
            assert(self@.retired =~= l0.retired.skip(0));
        }
        while self.retired.len() > 0
            invariant
                g0 == old(global)@,
                l0 == old(self)@,
                g0.wf(),
                l0.wf(g0),
                g0.is_slot(ver),
                g0.avail.stamp + l0.first_room(g0, 0) <= u64::MAX,
                global.wf(),
                self.wf(global),
                spares_others(global@, g0, l0.id),
                0 <= k <= l0.retired.len(),
                l0.first_room(g0, 0) == l0.first_room(g0, k),
                self@ == (LocalView { retired: l0.retired.skip(k), ..l0 }),
                global@ == g0.after_retires(l0.retired.take(k)),
            decreases l0.retired.len() - k,
        {
            let ghost g1 = global@;
            let ghost l1 = self@;
            let bag: usize = self.retired[0];
            proof {
                assert(bag == l0.retired[k]);
                assert(l1.bags()[l1.avail.len() as int] == bag);
                assert(g1.holders.contains_key(l1.bags()[l1.avail.len() as int]));
                assert(g1.is_slot(ver));
            }
            if global.bag_push(bag, ver) {
                proof {
                    assert(l0.first_room(g0, 0) == k);
                    assert forall|i: int| 0 <= i < self@.bags().len() implies global@.holders.contains_key(
                        #[trigger] self@.bags()[i],
                    ) && global@.holders[self@.bags()[i]] == self@.id by {
                        assert(g1.holders.contains_key(l1.bags()[i]));
                    }
                }
                return ;
            } else {
                proof {
                    assert(l0.first_room(g0, k) == l0.first_room(g0, k + 1));
                    lemma_first_room_forward(l0, g0, k + 1);
                }
                let _ = self.retired.pop_front();
                global.retire(bag);
                proof {
                    assert(self@.retired =~= l1.retired.drop_first());
                    lemma_cache_gives_bag(l1, self@, g1, global@);
                    lemma_one_more_retire(g0, g1, global@, l0.retired, k);
                    assert(l0.first_room(g0, k) == l0.first_room(g0, k + 1));
                    k = k + 1;
                    assert(self@.retired =~= l0.retired.skip(k));
                }
            }
        }
        let ghost g1 = global@;
        let ghost l1 = self@;
        proof {
            assert(k == l0.retired.len());
            assert(l0.retired.take(k) =~= l0.retired);
        }
        let mut bag: Bag<Ver<T>> = Bag::new();
        let _ = bag.push(ver);
        assert(bag@ =~= seq![ver]);
        let handle = global.adopt(bag);
        let ghost g2 = global@;
        global.claim(handle, self.id);
        self.retired.push_back(handle);
        proof {
            assert forall|i: int| 0 <= i < l1.bags().len() implies g2.holders.contains_key(
                #[trigger] l1.bags()[i],
            ) && g2.holders[l1.bags()[i]] == l1.id by {
                assert(g1.holders.contains_key(l1.bags()[i]));
            }
            lemma_cache_takes_bag(l1, self@, g2, global@, handle);
            assert(self@.retired =~= seq![handle]);
            assert forall|other: usize| #[trigger]
                g0.holders.contains_key(other) && g0.holders[other] != l0.id implies global@.holders.contains_key(
                other,
            ) && global@.holders[other] == g0.holders[other] by {
                assert(g1.holders.contains_key(other));
            }
        }
    }

    /// Fetches 16 bags from the pool and appends them to the bags to
    /// allocate from.
    pub fn refill(&mut self, global: &mut Global<T>) where T: Default
        requires
            old(global).wf(),
            old(self).wf(old(global)),
            old(global)@.can_grow_by(INIT_BAGS_PER_LOCAL as nat),
        ensures
            final(global).wf(),
            final(self).wf(final(global)),
            final(self)@ == (LocalView {
                avail: old(self)@.avail + old(global)@.acquired(INIT_BAGS_PER_LOCAL as nat),
                ..old(self)@
            }),
            final(global)@ == old(global)@.after_acquires(
                INIT_BAGS_PER_LOCAL as nat,
                final(global)@.slots.subrange(
                    old(global)@.slots.len() as int,
                    final(global)@.slots.len() as int,
                ),
            ).lent(old(global)@.acquired(INIT_BAGS_PER_LOCAL as nat), old(self)@.id),
            final(global)@.slots.len() == old(global)@.slots.len() + old(global)@.made_by(
                INIT_BAGS_PER_LOCAL as nat,
            ) * ENTRIES_PER_BAG,
            forall|i: int|
                old(global)@.slots.len() <= i < final(global)@.slots.len() ==> (
                #[trigger] final(global)@.slots[i]).is_fresh(),
    {
        let ghost g0 = old(global)@;
        let ghost l0 = old(self)@;
        let mut n: usize = 0;
        proof {
            lemma_after_no_acquires(g0, l0.id);
            assert(self@.avail =~= l0.avail + g0.acquired(0));
        }
        while n < INIT_BAGS_PER_LOCAL
            invariant
                n <= INIT_BAGS_PER_LOCAL,
                g0 == old(global)@,
                l0 == old(self)@,
                g0.wf(),
                g0.can_grow_by(INIT_BAGS_PER_LOCAL as nat),
                l0.wf(g0),
                global.wf(),
                self.wf(global),
                self@ == (LocalView { avail: l0.avail + g0.acquired(n as nat), ..l0 }),
                global@.slots.len() == g0.slots.len() + g0.made_by(n as nat) * ENTRIES_PER_BAG,
                global@ == g0.after_acquires(
                    n as nat,
                    global@.slots.subrange(g0.slots.len() as int, global@.slots.len() as int),
                ).lent(g0.acquired(n as nat), l0.id),
                forall|i: int|
                    g0.slots.len() <= i < global@.slots.len() ==> (#[trigger] global@.slots[i]).is_fresh(),
            decreases INIT_BAGS_PER_LOCAL - n,
        {
            let ghost g1 = global@;
            let ghost l1 = self@;
            proof {
                lemma_can_still_grow(g0, g1, n as nat, l0.id);
            }
            let bag = global.acquire();
            let ghost g2 = global@;
            global.claim(bag, self.id);
            self.avail.push_back(bag);
            proof {
                lemma_one_more_acquire(g0, g1, g2, global@, n as nat, l0.id, bag);
                assert(self@.avail =~= l0.avail + g0.acquired((n + 1) as nat));
                lemma_cache_takes_bag(l1, self@, g2, global@, bag);
            }
            n = n + 1;
        }
    }
}

/// Before any acquire the pool is as it was.
pub proof fn lemma_after_no_acquires<T>(g0: GlobalView<T>, id: nat)
    ensures
        g0 == g0.after_acquires(0, g0.slots.subrange(g0.slots.len() as int, g0.slots.len() as int)).lent(
            g0.acquired(0),
            id,
        ),
        g0.made_by(0) == 0,
{
    let g = g0.after_acquires(
        0,
        g0.slots.subrange(g0.slots.len() as int, g0.slots.len() as int),
    ).lent(g0.acquired(0), id);
    assert(g.avail.chain =~= g0.avail.chain);
    assert(g.avail.bags =~= g0.avail.bags);
    assert(g.slots =~= g0.slots);
    assert(g.holders =~= g0.holders);
}

/// In the middle of a run of at most 16 acquires, the pool can still make a
/// bag if its stack is empty.
pub proof fn lemma_can_still_grow<T>(g0: GlobalView<T>, g1: GlobalView<T>, n: nat, id: nat)
    requires
        n < INIT_BAGS_PER_LOCAL,
        g0.can_grow_by(INIT_BAGS_PER_LOCAL as nat),
        g1.slots.len() == g0.slots.len() + g0.made_by(n) * ENTRIES_PER_BAG,
        g1 == g0.after_acquires(
            n,
            g1.slots.subrange(g0.slots.len() as int, g1.slots.len() as int),
        ).lent(g0.acquired(n), id),
    ensures
        g1.can_grow(),
        g0.avail.stamp + g0.made_by(n) <= u64::MAX,
{
    lemma_addressable_less::<Ver<T>>(
        g1.slots.len() + ENTRIES_PER_BAG,
        g0.slots.len() + INIT_BAGS_PER_LOCAL * ENTRIES_PER_BAG,
    );
}

/// One acquire after a run of `n` acquires makes a run of `n + 1` acquires.
pub proof fn lemma_one_more_acquire<T: Default>(
    g0: GlobalView<T>,
    g1: GlobalView<T>,
    g2: GlobalView<T>,
    g3: GlobalView<T>,
    n: nat,
    id: nat,
    bag: usize,
)
    requires
        g0.wf(),
        g0.avail.stamp + g0.made_by(n) < u64::MAX,
        g1.slots.len() == g0.slots.len() + g0.made_by(n) * ENTRIES_PER_BAG,
        g1 == g0.after_acquires(
            n,
            g1.slots.subrange(g0.slots.len() as int, g1.slots.len() as int),
        ).lent(g0.acquired(n), id),
        forall|i: int| g0.slots.len() <= i < g1.slots.len() ==> (#[trigger] g1.slots[i]).is_fresh(),
        g1.avail.chain.len() > 0 ==> bag == g1.avail.chain[0] && g2 == (GlobalView {
            avail: g1.avail.popped(),
            ..g1
        }),
        g1.avail.chain.len() == 0 ==> bag == g1.avail.bags.len() + 1 && g2.slots.len()
            == g1.slots.len() + ENTRIES_PER_BAG && g2 == g1.grown(
            g2.slots.subrange(g1.slots.len() as int, g1.slots.len() + ENTRIES_PER_BAG),
        ) && forall|i: int|
            g1.slots.len() <= i < g2.slots.len() ==> (#[trigger] g2.slots[i]).is_fresh(),
        g3 == (GlobalView { holders: g2.holders.insert(bag, id), ..g2 }),
    ensures
        bag == g0.acquired_at(n as int),
        g3.slots.len() == g0.slots.len() + g0.made_by(n + 1) * ENTRIES_PER_BAG,
        g3 == g0.after_acquires(
            n + 1,
            g3.slots.subrange(g0.slots.len() as int, g3.slots.len() as int),
        ).lent(g0.acquired(n + 1), id),
        forall|i: int| g0.slots.len() <= i < g3.slots.len() ==> (#[trigger] g3.slots[i]).is_fresh(),
{
    let c = g0.avail.chain.len();
    let target = g0.after_acquires(
        n + 1,
        g3.slots.subrange(g0.slots.len() as int, g3.slots.len() as int),
    ).lent(g0.acquired(n + 1), id);
    assert(g0.acquired(n + 1) =~= g0.acquired(n).push(g0.acquired_at(n as int)));
    if n < c {
        assert(g1.avail.chain.len() > 0);
        assert(bag == g0.avail.chain[n as int]);
        assert(g3.slots =~= g1.slots);
        assert(target.avail.chain =~= g3.avail.chain);
        assert(target.avail.bags =~= g3.avail.bags);
        assert(target.slots =~= g3.slots);
    } else {
        assert(g1.avail.chain.len() == 0);
        assert(g0.made_by(n + 1) == g0.made_by(n) + 1);
        assert(g1.avail.bags.len() == g0.avail.bags.len() + g0.made_by(n));
        assert(bag == g0.acquired_at(n as int));
        assert(g3.slots.len() == g1.slots.len() + ENTRIES_PER_BAG);
        assert((g0.made_by(n) + 1) * ENTRIES_PER_BAG == g0.made_by(n) * ENTRIES_PER_BAG
            + ENTRIES_PER_BAG) by (nonlinear_arith);
        assert(target.avail.chain =~= g3.avail.chain);
        assert(target.avail.bags =~= g3.avail.bags) by {
            assert(g1.made_entries(0) == g0.made_entries(g0.made_by(n) as int));
        }
        assert(target.slots =~= g3.slots) by {
            assert forall|i: int| 0 <= i < g0.slots.len() implies g3.slots[i] == g0.slots[i] by {
                assert(g1.slots[i] == g0.slots[i]);
            }
        }
        assert forall|i: int| g0.slots.len() <= i < g3.slots.len() implies (
        #[trigger] g3.slots[i]).is_fresh() by {
            if i < g1.slots.len() {
                assert(g3.slots[i] == g1.slots[i]);
            }
        }
    }
    let a0 = g0.acquired(n);
    let a1 = g0.acquired(n + 1);
    assert(a1 =~= a0.push(bag));
    assert(target.holders =~= g3.holders) by {
        assert forall|h: usize| target.holders.contains_key(h) <==> g3.holders.contains_key(
            h,
        ) by {
            if a1.contains(h) {
                let k = choose|k: int| 0 <= k < a1.len() && a1[k] == h;
                if k < n {
                    assert(a0[k] == h);
                }
            }
            if a0.contains(h) {
                let k = choose|k: int| 0 <= k < a0.len() && a0[k] == h;
                assert(a1[k] == h);
            }
            if h == bag {
                assert(a1[n as int] == h);
            }
        }
        assert forall|h: usize| target.holders.contains_key(h) implies target.holders[h]
            == g3.holders[h] by {
            if a1.contains(h) {
                let k = choose|k: int| 0 <= k < a1.len() && a1[k] == h;
                if k < n {
                    assert(a0[k] == h);
                }
            } else {
                if a0.contains(h) {
                    let k = choose|k: int| 0 <= k < a0.len() && a0[k] == h;
                    assert(a1[k] == h);
                }
                if h == bag {
                    assert(a1[n as int] == h);
                }
            }
        }
    }
}

/// A cache that appends a bag which the pool notes as its own stays a
/// cache of the pool.
pub proof fn lemma_cache_takes_bag<T>(
    l1: LocalView,
    l2: LocalView,
    g1: GlobalView<T>,
    g2: GlobalView<T>,
    bag: usize,
)
    requires
        l1.wf(g1),
        !g1.holders.contains_key(bag),
        g2 == (GlobalView { holders: g1.holders.insert(bag, l1.id), ..g1 }),
        l2.id == l1.id,
        (l2.avail == l1.avail.push(bag) && l2.retired == l1.retired) || (l2.avail == l1.avail
            && l2.retired == l1.retired.push(bag)),
    ensures
        l2.wf(g2),
{
    let old_bags = l1.bags();
    let new_bags = l2.bags();
    let at = if l2.avail == l1.avail.push(bag) && l2.retired == l1.retired {
        l1.avail.len() as int
    } else {
        old_bags.len() as int
    };
    assert(new_bags =~= old_bags.insert(at, bag));
    assert forall|i: int| 0 <= i < new_bags.len() implies g2.holders.contains_key(
        #[trigger] new_bags[i],
    ) && g2.holders[new_bags[i]] == l2.id by {
        if i < at {
            assert(new_bags[i] == old_bags[i]);
        } else if i > at {
            assert(new_bags[i] == old_bags[i - 1]);
        }
    }
    assert forall|i: int, j: int|
        0 <= i < new_bags.len() && 0 <= j < new_bags.len() && i != j implies new_bags[i]
        != new_bags[j] by {
        let oi = if i < at {
            i
        } else {
            i - 1
        };
        let oj = if j < at {
            j
        } else {
            j - 1
        };
        if i != at {
            assert(new_bags[i] == old_bags[oi]);
            assert(g1.holders.contains_key(old_bags[oi]));
        }
        if j != at {
            assert(new_bags[j] == old_bags[oj]);
            assert(g1.holders.contains_key(old_bags[oj]));
        }
    }
}

/// The search for a supply only goes forward.
pub proof fn lemma_first_supply_forward<T>(cache: LocalView, pool: GlobalView<T>, from: int)
    ensures
        from <= cache.first_supply(pool, from),
    decreases cache.avail.len() + pool.avail.chain.len() - from,
{
    if from < cache.avail.len() + pool.avail.chain.len() && cache.candidate_entries(
        pool,
        from,
    ).len() == 0 {
        lemma_first_supply_forward(cache, pool, from + 1);
    }
}

/// The candidate number `i` is a bag of the pool once the cache has made `n`
/// acquires that reach it, and holds what the search expects of it.
pub proof fn lemma_candidate_now<T>(
    cache: LocalView,
    before: GlobalView<T>,
    now: GlobalView<T>,
    n: nat,
    i: int,
)
    requires
        before.wf(),
        cache.wf(before),
        now.avail.bags == before.avail.bags + Seq::new(
            before.made_by(n),
            |k: int| before.made_entries(k),
        ),
        now.avail.bags.len() <= usize::MAX,
        0 <= i < cache.avail.len() + n,
    ensures
        now.avail.is_bag(cache.candidate(before, i)),
        before.avail.is_bag(cache.candidate(before, i)) <==> i < cache.avail.len()
            + before.avail.chain.len(),
        now.avail.entries(cache.candidate(before, i)) == cache.candidate_entries(before, i),
        i >= cache.avail.len() + before.avail.chain.len() ==> cache.candidate_entries(
            before,
            i,
        ).len() == ENTRIES_PER_BAG,
{
    let m = cache.avail.len() as int;
    let c = before.avail.chain.len() as int;
    if i < m {
        assert(cache.bags()[i] == cache.avail[i]);
        assert(before.holders.contains_key(cache.bags()[i]));
    } else if i < m + c {
        assert(before.avail.is_bag(before.avail.chain[i - m]));
    } else {
        assert(before.made_by(n) == n - c);
    }
}

/// A cache that moves its front bag to allocate from to the back of the bags
/// for the retired keeps its bags.
pub proof fn lemma_cache_rotates<T>(before: LocalView, after: LocalView, pool: GlobalView<T>)
    requires
        before.wf(pool),
        before.avail.len() > 0,
        after.id == before.id,
        after.avail == before.avail.drop_first(),
        after.retired == before.retired.push(before.avail[0]),
    ensures
        after.wf(pool),
{
    let old_bags = before.bags();
    let new_bags = after.bags();
    let last = new_bags.len() - 1;
    assert forall|i: int| 0 <= i < new_bags.len() implies pool.holders.contains_key(
        #[trigger] new_bags[i],
    ) && pool.holders[new_bags[i]] == after.id by {
        let k = if i < last {
            i + 1
        } else {
            0
        };
        assert(new_bags[i] == old_bags[k]);
        assert(pool.holders.contains_key(old_bags[k]));
    }
    assert forall|i: int, j: int|
        0 <= i < new_bags.len() && 0 <= j < new_bags.len() && i != j implies new_bags[i]
        != new_bags[j] by {
        let ki = if i < last {
            i + 1
        } else {
            0
        };
        let kj = if j < last {
            j + 1
        } else {
            0
        };
        assert(new_bags[i] == old_bags[ki]);
        assert(new_bags[j] == old_bags[kj]);
    }
}

/// What a cache fetches was nobody's before: the pool after the fetch has
/// left the other caches alone.
pub proof fn lemma_fetch_spares_others<T>(
    before: GlobalView<T>,
    n: nat,
    cells: Seq<SlotView<T>>,
    id: nat,
)
    requires
        before.wf(),
        before.avail.bags.len() + before.made_by(n) <= usize::MAX,
    ensures
        spares_others(before.after_acquires(n, cells).lent(before.acquired(n), id), before, id),
{
    let after = before.after_acquires(n, cells).lent(before.acquired(n), id);
    let got = before.acquired(n);
    assert forall|bag: usize| #[trigger]
        before.holders.contains_key(bag) && before.holders[bag] != id implies after.holders.contains_key(
        bag,
    ) && after.holders[bag] == before.holders[bag] by {
        if got.contains(bag) {
            let k = choose|k: int| 0 <= k < got.len() && got[k] == bag;
            assert(before.avail.is_out(bag));
            if k < before.avail.chain.len() {
                assert(before.avail.chain[k] == bag);
                assert(before.avail.chain.contains(bag));
            } else {
                assert(before.made_by(n) == n - before.avail.chain.len());
                assert(bag == before.avail.bags.len() + 1 + (k - before.avail.chain.len()));
            }
        }
    }
}

/// A batch of 16 acquires after a run of `n` acquires that made no bag is a
/// run of `n + 16` acquires.
pub proof fn lemma_fetch_again<T>(
    g0: GlobalView<T>,
    g1: GlobalView<T>,
    g2: GlobalView<T>,
    n: nat,
    id: nat,
)
    requires
        g0.wf(),
        n <= g0.avail.chain.len(),
        g1.slots.len() == g0.slots.len(),
        g1 == g0.after_acquires(
            n,
            g1.slots.subrange(g0.slots.len() as int, g1.slots.len() as int),
        ).lent(g0.acquired(n), id),
        g2.slots.len() == g1.slots.len() + g1.made_by(INIT_BAGS_PER_LOCAL as nat)
            * ENTRIES_PER_BAG,
        g2 == g1.after_acquires(
            INIT_BAGS_PER_LOCAL as nat,
            g2.slots.subrange(g1.slots.len() as int, g2.slots.len() as int),
        ).lent(g1.acquired(INIT_BAGS_PER_LOCAL as nat), id),
    ensures
        forall|k: int|
            0 <= k < INIT_BAGS_PER_LOCAL ==> #[trigger] g1.acquired_at(k) == g0.acquired_at(
                n + k,
            ),
        g0.made_by(n + INIT_BAGS_PER_LOCAL as nat) == g1.made_by(INIT_BAGS_PER_LOCAL as nat),
        g0.made_by(n + INIT_BAGS_PER_LOCAL as nat) <= INIT_BAGS_PER_LOCAL,
        g2.slots.len() == g0.slots.len() + g0.made_by(n + INIT_BAGS_PER_LOCAL as nat)
            * ENTRIES_PER_BAG,
        g2 == g0.after_acquires(
            n + INIT_BAGS_PER_LOCAL as nat,
            g2.slots.subrange(g0.slots.len() as int, g2.slots.len() as int),
        ).lent(g0.acquired(n + INIT_BAGS_PER_LOCAL as nat), id),
{
    let batch = INIT_BAGS_PER_LOCAL as nat;
    let total = n + batch;
    let c = g0.avail.chain.len();
    assert(g0.made_by(n) == 0);
    assert(g1.avail.chain =~= g0.avail.chain.skip(n as int));
    assert(g1.avail.bags =~= g0.avail.bags);
    assert(g1.slots =~= g0.slots);
    assert forall|k: int| 0 <= k < batch implies #[trigger] g1.acquired_at(k)
        == g0.acquired_at(n + k) by {}
    let target = g0.after_acquires(
        total,
        g2.slots.subrange(g0.slots.len() as int, g2.slots.len() as int),
    ).lent(g0.acquired(total), id);
    assert(target.avail.chain =~= g2.avail.chain);
    assert(target.avail.bags =~= g2.avail.bags) by {
        assert forall|i: int| 0 <= i < g0.made_by(total) implies g0.made_entries(i)
            == g1.made_entries(i) by {}
    }
    assert(target.slots =~= g2.slots);
    let a0 = g0.acquired(n);
    let a1 = g1.acquired(batch);
    let a2 = g0.acquired(total);
    assert(a2 =~= a0 + a1);
    assert(target.holders =~= g2.holders) by {
        assert forall|h: usize| a2.contains(h) <==> a0.contains(h) || a1.contains(h) by {
            if a2.contains(h) {
                let k = choose|k: int| 0 <= k < a2.len() && a2[k] == h;
                if k < n {
                    assert(a0[k] == h);
                } else {
                    assert(a1[k - n] == h);
                }
            }
            if a0.contains(h) {
                let k = choose|k: int| 0 <= k < a0.len() && a0[k] == h;
                assert(a2[k] == h);
            }
            if a1.contains(h) {
                let k = choose|k: int| 0 <= k < a1.len() && a1[k] == h;
                assert(a2[n + k] == h);
            }
        }
    }
}

/// The search for room only goes forward.
pub proof fn lemma_first_room_forward<T>(cache: LocalView, pool: GlobalView<T>, from: int)
    ensures
        from <= cache.first_room(pool, from),
    decreases cache.retired.len() - from,
{
    if from < cache.retired.len() && pool.avail.entries(cache.retired[from]).len()
        >= ENTRIES_PER_BAG {
        lemma_first_room_forward(cache, pool, from + 1);
    }
}

/// Nothing handed back leaves the pool as it is.
pub proof fn lemma_after_no_retires<T>(pool: GlobalView<T>)
    ensures
        pool.after_retires(Seq::empty()) == pool,
{
    let after = pool.after_retires(Seq::empty());
    assert(after.avail.chain =~= pool.avail.chain);
    assert(after.holders =~= pool.holders);
}

/// One more bag handed back after the first `k` of `bags` makes the first
/// `k + 1` of them.
pub proof fn lemma_one_more_retire<T>(
    g0: GlobalView<T>,
    g1: GlobalView<T>,
    g2: GlobalView<T>,
    bags: Seq<usize>,
    k: int,
)
    requires
        0 <= k < bags.len(),
        g0.avail.stamp + k < u64::MAX,
        g1 == g0.after_retires(bags.take(k)),
        g2 == (GlobalView {
            avail: g1.avail.pushed(bags[k]),
            holders: g1.holders.remove(bags[k]),
            ..g1
        }),
    ensures
        g2 == g0.after_retires(bags.take(k + 1)),
{
    let target = g0.after_retires(bags.take(k + 1));
    let shorter = bags.take(k);
    let longer = bags.take(k + 1);
    assert(longer =~= shorter.push(bags[k]));
    assert(target.avail.chain =~= g2.avail.chain);
    assert(target.holders =~= g2.holders) by {
        assert forall|h: usize| longer.contains(h) <==> shorter.contains(h) || h == bags[k] by {
            if longer.contains(h) {
                let i = choose|i: int| 0 <= i < longer.len() && longer[i] == h;
                if i < k {
                    assert(shorter[i] == h);
                }
            }
            if shorter.contains(h) {
                let i = choose|i: int| 0 <= i < shorter.len() && shorter[i] == h;
                assert(longer[i] == h);
            }
            if h == bags[k] {
                assert(longer[k] == h);
            }
        }
    }
}

/// A cache that hands its front bag for the retired back to the pool keeps
/// the rest of its bags, and the other caches keep theirs.
pub proof fn lemma_cache_gives_bag<T>(
    l1: LocalView,
    l2: LocalView,
    g1: GlobalView<T>,
    g2: GlobalView<T>,
)
    requires
        l1.wf(g1),
        l1.retired.len() > 0,
        l2.id == l1.id,
        l2.avail == l1.avail,
        l2.retired == l1.retired.drop_first(),
        g2.locals == g1.locals,
        g2.holders == g1.holders.remove(l1.retired[0]),
    ensures
        l2.wf(g2),
        spares_others(g2, g1, l1.id),
{
    let old_bags = l1.bags();
    let new_bags = l2.bags();
    let at = l1.avail.len() as int;
    assert(old_bags[at] == l1.retired[0]);
    assert forall|i: int| 0 <= i < new_bags.len() implies g2.holders.contains_key(
        #[trigger] new_bags[i],
    ) && g2.holders[new_bags[i]] == l2.id by {
        let k = if i < at {
            i
        } else {
            i + 1
        };
        assert(new_bags[i] == old_bags[k]);
        assert(g1.holders.contains_key(old_bags[k]));
    }
    assert forall|i: int, j: int|
        0 <= i < new_bags.len() && 0 <= j < new_bags.len() && i != j implies new_bags[i]
        != new_bags[j] by {
        let ki = if i < at {
            i
        } else {
            i + 1
        };
        let kj = if j < at {
            j
        } else {
            j + 1
        };
        assert(new_bags[i] == old_bags[ki]);
        assert(new_bags[j] == old_bags[kj]);
    }
    assert forall|bag: usize| #[trigger]
        g1.holders.contains_key(bag) && g1.holders[bag] != l1.id implies g2.holders.contains_key(
        bag,
    ) && g2.holders[bag] == g1.holders[bag] by {
        assert(g1.holders.contains_key(old_bags[at]));
    }
}

} // verus!
