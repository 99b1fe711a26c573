//! Guards: sessions pinned to the epoch at which they began.

use vstd::prelude::*;
use core::marker::PhantomData;
use crate::arena::{index_of, lemma_index_of_addr};
use crate::bag::ENTRIES_PER_BAG;
use crate::global::{Global, GlobalView, Ver, NOT_RETIRED};
use crate::local::{spares_others, Local, LocalView, INIT_BAGS_PER_LOCAL};
use crate::retry::Retry;
use crate::shared::{Shared, SharedView};
use crate::word::ptr_with_tag;

verus! {

/// A session of one thread. It remembers the epoch of the pool at which it was
/// made; what it allocates is born at that epoch, and what it reads is good
/// only while the pool is still at that epoch.
pub struct Guard<T> {
    epoch: u64,
    _marker: PhantomData<T>,
}

impl<T> View for Guard<T> {
    type V = u64;

    /// The epoch at which the guard was made.
    closed spec fn view(&self) -> u64 {
        self.epoch
    }
}

impl<T> Guard<T> {
    /// A guard made at `epoch`.
    pub(crate) fn at(epoch: u64) -> (guard: Self)
        ensures
            guard@ == epoch,
    {
        Guard { epoch, _marker: PhantomData }
    }

    /// The epoch at which the guard was made.
    pub fn epoch(&self) -> (epoch: u64)
        ensures
            epoch == self@,
    {
        self.epoch
    }

    /// Allocates a slot: pops one from the cache and, if no guard that was
    /// made at or before its retirement can still look at it, starts a new
    /// incarnation in it, born at the epoch of this guard. Otherwise the slot
    /// goes back where it came from, the clock is pushed on from the epoch of
    /// the guard, if it still stands there, and the caller must retry. The
    /// clock cannot be pushed on from `u64::MAX`.
    pub fn allocate<'g>(&'g self, local: &mut Local<T>, global: &mut Global<T>) -> (res: Result<
        Shared<'g, T>,
        Retry,
    >) where T: Default
        requires
            old(global).wf(),
            old(local).wf(old(global)),
            old(local)@.fetches(old(global)@) > 0 ==> old(global)@.can_grow_by(
                INIT_BAGS_PER_LOCAL as nat,
            ),
            self@ <= old(global)@.epoch,
            old(global)@.retire_at(old(local)@.next_slot(old(global)@)) >= self@ ==> self@
                < u64::MAX,
        ensures
            final(global).wf(),
            final(local).wf(final(global)),
            spares_others(final(global)@, old(global)@, old(local)@.id),
            final(local)@ == old(local)@.after_pop(old(global)@),
            final(global)@.slots.len() == old(global)@.slots.len() + old(global)@.made_by(
                old(local)@.fetches(old(global)@),
            ) * ENTRIES_PER_BAG,
            ({
                let g0 = old(global)@;
                let l0 = old(local)@;
                let ver = l0.next_slot(g0);
                let reusable = g0.retire_at(ver) < self@;
                let before = if reusable {
                    final(global)@.with_stamps(ver, g0.birth_at(ver), g0.retire_at(ver))
                } else {
                    final(global)@
                };
                let cells = before.slots.subrange(g0.slots.len() as int, before.slots.len() as int);
                &&& final(global)@.is_slot(ver)
                &&& forall|i: int|
                    g0.slots.len() <= i < before.slots.len() ==> (#[trigger] before.slots[i]).is_fresh()
                &&& reusable ==> res.is_ok() && res.unwrap()@ == (SharedView {
                    ptr: ver,
                    birth: self@,
                }) && res.unwrap().addr() == ver && g0.birth_at(ver) < self@ && before
                    == l0.pool_after_pop(g0, cells) && final(global)@ == before.with_stamps(
                    ver,
                    self@,
                    NOT_RETIRED,
                )
                &&& !reusable ==> res.is_err() && final(global)@ == (GlobalView {
                    epoch: if g0.epoch == self@ {
                        (self@ + 1) as u64
                    } else {
                        g0.epoch
                    },
                    ..l0.pool_after_fetch(g0, cells)
                })
            }),
    {
        let ghost g0 = global@;
        let ghost l0 = local@;
        let ptr: usize = local.pop_avail(global);
        let ghost g1 = global@;
        let ghost cells = g1.slots.subrange(g0.slots.len() as int, g1.slots.len() as int);
        let ghost fetched = l0.pool_after_fetch(g0, cells);
        let ghost l1 = local@;
        let ghost index = index_of::<Ver<T>>(ptr as int);
        proof {
            let bag = l0.next_bag(g0);
            assert(l1.avail[0] == bag);
            assert(fetched.avail.is_bag(bag));
            assert(g1.avail.entries(bag) == l0.candidate_entries(
                g0,
                l0.first_supply(g0, 0),
            ).drop_last());
            lemma_index_of_addr::<Ver<T>>(ptr as int, g1.slots.len() as int);
            assert(g1.slots[index].wf(g1.epoch));
            if index < g0.slots.len() {
                assert(g1.slots[index] == g1.slots.subrange(0, g0.slots.len() as int)[index]);
            } else {
                assert(g1.slots[index].is_fresh());
            }
            assert(g1.slot(ptr).birth == g0.birth_at(ptr));
            assert(g1.slot(ptr).retire == g0.retire_at(ptr));
        }
        if self.epoch <= global.ver(ptr).retire() {
            local.return_avail(global, ptr);
            proof {
                let bag = l0.next_bag(g0);
                let entries = l0.candidate_entries(g0, l0.first_supply(g0, 0));
                assert(entries.drop_last().push(entries.last()) =~= entries);
                assert(ptr == entries.last());
                assert(fetched.avail.entries(bag) == entries);
                assert(global@.avail.bags =~= fetched.avail.bags);
                assert(global@ == fetched);
            }
            let _ = global.advance(self.epoch);
            return Err(Retry);
        }
        global.reincarnate(ptr, self.epoch);
        proof {
            let before = global@.with_stamps(ptr, g0.birth_at(ptr), g0.retire_at(ptr));
            assert(before.slots =~= g1.slots);
            assert(before == g1);
            assert(global@.slots =~= before.with_stamps(ptr, self@, NOT_RETIRED).slots);
        }
        let shared = Shared::from_parts(ptr, self.epoch);
        Ok(shared)
    }

    /// Whether a retirement through `ptr` takes effect on `pool`: the slot
    /// still holds the incarnation that `ptr` was made for, and nobody retired
    /// it before.
    pub open spec fn retire_takes_effect<'g>(pool: GlobalView<T>, ptr: Shared<'g, T>) -> bool {
        pool.slot(ptr.addr()).retirable_as(ptr@.birth)
    }

    /// The pool after a retirement through `ptr` by the thread of `cache`.
    pub open spec fn pool_after_retire<'g>(
        cache: LocalView,
        pool: GlobalView<T>,
        ptr: Shared<'g, T>,
    ) -> GlobalView<T> {
        if Self::retire_takes_effect(pool, ptr) {
            cache.pool_after_push(
                pool.with_slot(ptr.addr(), pool.slot(ptr.addr()).retired(pool.epoch)),
                ptr.addr(),
            )
        } else {
            pool
        }
    }

    /// The cache after a retirement through `ptr` by its thread.
    pub open spec fn cache_after_retire<'g>(
        cache: LocalView,
        pool: GlobalView<T>,
        ptr: Shared<'g, T>,
    ) -> LocalView {
        if Self::retire_takes_effect(pool, ptr) {
            cache.after_push(pool)
        } else {
            cache
        }
    }

    /// What a retirement through `ptr` under this guard returns: the signal
    /// to retry if it took effect and found the pool past the epoch of the
    /// guard.
    pub open spec fn retire_result<'g>(&self, pool: GlobalView<T>, ptr: Shared<'g, T>) -> Result<
        (),
        Retry,
    > {
        if Self::retire_takes_effect(pool, ptr) && self@ < pool.epoch {
            Err(Retry)
        } else {
            Ok(())
        }
    }

    /// Retiring twice is retiring once: after a retirement through `ptr`, a
    /// second one through the same handle changes neither the pool nor the
    /// cache and succeeds. The slot carries the one stamp that the first
    /// retirement set, and the first one succeeds as well unless the pool had
    /// moved past the epoch of the guard. This holds while the clock is below
    /// `NOT_RETIRED`: a retirement at that very epoch leaves a stamp that
    /// reads as "not retired".
    pub proof fn law_retire_is_idempotent<'g>(
        &self,
        cache: LocalView,
        pool: GlobalView<T>,
        ptr: Shared<'g, T>,
    )
        requires
            pool.wf(),
            pool.epoch < NOT_RETIRED,
            cache.wf(pool),
            ptr.wf(pool),
            ptr.addr() != 0,
        ensures
            ({
                let once = Self::pool_after_retire(cache, pool, ptr);
                let cache_once = Self::cache_after_retire(cache, pool, ptr);
                &&& Self::pool_after_retire(cache_once, once, ptr) == once
                &&& Self::cache_after_retire(cache_once, once, ptr) == cache_once
                &&& self.retire_result(once, ptr) == Ok::<(), Retry>(())
                &&& pool.epoch <= self@ ==> self.retire_result(pool, ptr) == Ok::<(), Retry>(())
                &&& Self::retire_takes_effect(pool, ptr) ==> once.slot(ptr.addr()).retire
                    == pool.epoch && once.slot(ptr.addr()).birth == ptr@.birth
            }),
    {
        let addr = ptr.addr();
        lemma_index_of_addr::<Ver<T>>(addr as int, pool.slots.len() as int);
    }

    /// Retires the incarnation that `ptr` was made for, which the caller has
    /// unlinked from wherever it was reachable. If the slot holds another
    /// incarnation by now, or that incarnation is retired already, the call is
    /// late and changes nothing. Otherwise the slot is stamped with the current
    /// epoch and filed in the cache. The call fails, after it has done all of
    /// that, if the pool has moved past the epoch of the guard: what the
    /// caller read under this guard may be stale.
    pub fn retire<'g>(&self, local: &mut Local<T>, global: &mut Global<T>, ptr: Shared<'g, T>) -> (res:
        Result<(), Retry>)
        requires
            old(global).wf(),
            old(local).wf(old(global)),
            ptr.wf(old(global)@),
            ptr.addr() != 0,
            Self::retire_takes_effect(old(global)@, ptr) ==> old(global)@.avail.stamp + old(local)@.first_room(old(global)@, 0) <= u64::MAX,
        ensures
            final(global).wf(),
            final(local).wf(final(global)),
            spares_others(final(global)@, old(global)@, old(local)@.id),
            res == self.retire_result(old(global)@, ptr),
            final(global)@ == Self::pool_after_retire(old(local)@, old(global)@, ptr),
            final(local)@ == Self::cache_after_retire(old(local)@, old(global)@, ptr),
    {
        let ghost g0 = global@;
        let ghost l0 = local@;
        let addr: usize = ptr_with_tag::<Ver<T>>(ptr.as_raw(), 0);
        proof {
            lemma_index_of_addr::<Ver<T>>(addr as int, g0.slots.len() as int);
            assert(g0.slots[index_of::<Ver<T>>(addr as int)].wf(g0.epoch));
        }
        if global.ver(addr).birth() != ptr.birth() || global.ver(addr).retire() != NOT_RETIRED {
            proof {
                assert forall|bag: usize| #[trigger]
                    g0.holders.contains_key(bag) && g0.holders[bag] != l0.id implies g0.holders.contains_key(
                    bag,
                ) by {}
            }
            return Ok(());
        }
        let curr_epoch: u64 = global.epoch();
        global.stamp_retired(addr, curr_epoch);
        proof {
            let g1 = global@;
            assert(l0.wf(g1));
            assert(g1.avail == g0.avail);
            lemma_same_bags_same_push(l0, g0, g1);
        }
        local.push_retired(global, addr);
        if self.epoch < curr_epoch {
            return Err(Retry);
        }
        Ok(())
    }

    /// Succeeds only if the pool is still at the epoch of the guard.
    pub fn validate_epoch(&self, global: &Global<T>) -> (res: Result<(), Retry>)
        ensures
            res.is_ok() <==> self@ == global@.epoch,
    {
        if self.epoch == global.epoch() {
            Ok(())
        } else {
            Err(Retry)
        }
    }
}

/// Where a cache files a retired slot depends on the bags alone, not on the
/// slots.
pub proof fn lemma_same_bags_same_push<T>(cache: LocalView, g0: GlobalView<T>, g1: GlobalView<T>)
    requires
        g0.avail == g1.avail,
    ensures
        cache.after_push(g0) == cache.after_push(g1),
        forall|from: int| cache.first_room(g0, from) == cache.first_room(g1, from),
{
    assert forall|from: int| cache.first_room(g0, from) == cache.first_room(g1, from) by {
        lemma_same_bags_same_room(cache, g0, g1, from);
    }
}

/// The search for room depends on the bags alone.
pub proof fn lemma_same_bags_same_room<T>(
    cache: LocalView,
    g0: GlobalView<T>,
    g1: GlobalView<T>,
    from: int,
)
    requires
        g0.avail == g1.avail,
    ensures
        cache.first_room(g0, from) == cache.first_room(g1, from),
    decreases cache.retired.len() - from,
{
    if from < cache.retired.len() && g0.avail.entries(cache.retired[from]).len()
        >= ENTRIES_PER_BAG {
        lemma_same_bags_same_room(cache, g0, g1, from + 1);
    }
}

} // verus!
