//! The cells that a data structure keeps its handles and its plain fields in.
//!
//! A `VerAtomic` is a link that is updated by compare-and-exchange; it keeps
//! a stamp beside the address, the later of the births on the two sides of the
//! exchange that wrote it, so that the same address under another stamp is
//! another value. An `Entry` is an anchor that is written once. An `ImmAtomic`
//! is a plain field whose reads are good only while the epoch stands.

use vstd::prelude::*;
use core::marker::PhantomData;
use crate::global::{Global, GlobalView, Ver};
use crate::guard::Guard;
use crate::retry::Retry;
use crate::shared::{Shared, SharedView};
use crate::word::{
    compare_exchange,
    compose_u128,
    decompose_u128,
    lemma_pack_unpack,
    lemma_pack_zero,
    pack,
    ptr_of,
    ptr_with_tag,
    stamp_of,
    tagged,
    untagged,
};

verus! {

/// What a link holds: a stamp and a tagged address.
pub struct LinkView {
    pub stamp: u64,
    pub ptr: usize,
}

/// A link to a slot that is updated by compare-and-exchange.
pub struct VerAtomic<T> {
    /// The stamp above the tagged address.
    link: u128,
    _marker: PhantomData<T>,
}

impl<T> View for VerAtomic<T> {
    type V = LinkView;

    closed spec fn view(&self) -> LinkView {
        LinkView { stamp: stamp_of(self.link), ptr: ptr_of(self.link) }
    }
}

/// The larger of two births.
pub open spec fn later(a: u64, b: u64) -> u64 {
    if a >= b {
        a
    } else {
        b
    }
}

/// The birth of the slot of `pool` that the tagged address `ptr` leads to, or
/// zero if it leads to none.
pub open spec fn birth_behind<T>(pool: GlobalView<T>, ptr: usize) -> u64 {
    if untagged::<Ver<T>>(ptr) == 0 {
        0
    } else {
        pool.slot(untagged::<Ver<T>>(ptr)).birth
    }
}

/// Whether the tagged address `ptr` leads to no slot or to a slot of `pool`.
pub open spec fn leads_into<T>(pool: GlobalView<T>, ptr: usize) -> bool {
    untagged::<Ver<T>>(ptr) == 0 || pool.is_slot(untagged::<Ver<T>>(ptr))
}

/// The birth of the slot of `global` that the tagged address `ptr` leads to,
/// or zero if it leads to none.
fn read_birth<T>(global: &Global<T>, ptr: usize) -> (birth: u64)
    requires
        leads_into(global@, ptr),
    ensures
        birth == birth_behind(global@, ptr),
{
    let addr: usize = ptr_with_tag::<Ver<T>>(ptr, 0);
    if addr == 0 {
        0
    } else {
        global.ver(addr).birth()
    }
}

impl<T> VerAtomic<T> {
    /// The word of the link is the packing of the two parts that it is read
    /// as.
    #[verifier::type_invariant]
    spec fn packed(&self) -> bool {
        self.link == pack(stamp_of(self.link), ptr_of(self.link))
    }

    /// Whether the link may be used with `pool`.
    pub open spec fn wf(&self, pool: GlobalView<T>) -> bool {
        leads_into(pool, self@.ptr)
    }

    /// A link that leads to no slot, under the stamp zero.
    pub fn null() -> (link: Self)
        ensures
            link@ == (LinkView { stamp: 0, ptr: 0 }),
    {
        proof {
            lemma_pack_zero();
        }
        VerAtomic { link: 0, _marker: PhantomData }
    }

    /// Reads the link: a handle to the slot it leads to, made for the
    /// incarnation that the slot holds now. The read fails if the pool has
    /// left the epoch of the guard.
    pub fn load<'g>(&self, guard: &'g Guard<T>, global: &Global<T>) -> (res: Result<
        Shared<'g, T>,
        Retry,
    >)
        requires
            self.wf(global@),
        ensures
            guard@ == global@.epoch ==> res.is_ok() && res.unwrap()@ == (SharedView {
                ptr: self@.ptr,
                birth: birth_behind(global@, self@.ptr),
            }),
            guard@ != global@.epoch ==> res.is_err(),
    {
        let result = self.load_unchecked(guard, global);
        match guard.validate_epoch(global) {
            Ok(_) => Ok(result),
            Err(retry) => Err(retry),
        }
    }

    /// Reads the link as `load` does, whatever the epoch.
    pub fn load_unchecked<'g>(&self, _guard: &'g Guard<T>, global: &Global<T>) -> (shared: Shared<
        'g,
        T,
    >)
        requires
            self.wf(global@),
        ensures
            shared@ == (SharedView { ptr: self@.ptr, birth: birth_behind(global@, self@.ptr) }),
    {
        let (_, ptr) = decompose_u128(self.link);
        let birth: u64 = read_birth(global, ptr);
        Shared::from_parts(ptr, birth)
    }

    /// Replaces what the link holds if it holds `current` under the later of
    /// the births of `current` and `new`. The link then holds `new` under that
    /// same stamp, and the address that was replaced is returned. If the link
    /// holds anything else it is left alone and the address found in it is the
    /// error. The slot that the link lives in, `owner`, has no say in the
    /// exchange.
    pub fn compare_exchange<'g>(
        &mut self,
        _owner: Shared<'g, T>,
        current: Shared<'g, T>,
        new: Shared<'g, T>,
        _guard: &'g Guard<T>,
    ) -> (res: Result<usize, usize>)
        ensures
            old(self)@ == (LinkView {
                stamp: later(current@.birth, new@.birth),
                ptr: current@.ptr,
            }) ==> res == Ok::<usize, usize>(current@.ptr) && final(self)@ == (LinkView {
                stamp: later(current@.birth, new@.birth),
                ptr: new@.ptr,
            }),
            old(self)@ != (LinkView {
                stamp: later(current@.birth, new@.birth),
                ptr: current@.ptr,
            }) ==> res == Err::<usize, usize>(old(self)@.ptr) && final(self)@ == old(self)@,
    {
        proof {
            use_type_invariant(&*self);
        }
        let stamp: u64 = if current.birth() >= new.birth() {
            current.birth()
        } else {
            new.birth()
        };
        let curr: u128 = compose_u128(stamp, current.as_raw());
        let next: u128 = compose_u128(stamp, new.as_raw());
        proof {
            lemma_pack_unpack(stamp, current@.ptr);
            lemma_pack_unpack(stamp, new@.ptr);
        }
        match compare_exchange(&mut self.link, curr, next) {
            Ok(found) => Ok(decompose_u128(found).1),
            Err(found) => Err(decompose_u128(found).1),
        }
    }

    /// Makes the link lead to no slot, under the tag `tag` and the birth of
    /// `owner`, the slot that the link lives in. Returns the handle that the
    /// link holds from then on.
    pub fn nullify<'g>(&mut self, owner: Shared<'g, T>, tag: usize, _guard: &'g Guard<T>) -> (shared:
        Shared<'g, T>)
        ensures
            shared@ == (SharedView { ptr: tagged::<Ver<T>>(0, tag), birth: owner@.birth }),
            shared.addr() == 0,
            final(self)@ == (LinkView { stamp: owner@.birth, ptr: tagged::<Ver<T>>(0, tag) }),
    {
        let prev: u128 = self.link;
        let ptr: usize = ptr_with_tag::<Ver<T>>(0, tag);
        let result = Shared::from_parts(ptr, owner.birth());
        proof {
            lemma_pack_unpack(owner@.birth, ptr);
        }
        let _ = compare_exchange(&mut self.link, prev, compose_u128(result.birth(), result.as_raw()));
        result
    }
}

/// An anchor of a data structure: a link that is set when it is made and
/// only read from then on.
pub struct Entry<T> {
    link: usize,
    _marker: PhantomData<T>,
}

impl<T> View for Entry<T> {
    type V = usize;

    /// The tagged address that the anchor holds.
    closed spec fn view(&self) -> usize {
        self.link
    }
}

impl<T> Entry<T> {
    /// Whether the anchor may be used with `pool`.
    pub open spec fn wf(&self, pool: GlobalView<T>) -> bool {
        leads_into(pool, self@)
    }

    /// An anchor that holds the address of `init`.
    pub fn new<'g>(init: Shared<'g, T>) -> (entry: Self)
        ensures
            entry@ == init@.ptr,
    {
        Entry { link: init.as_raw(), _marker: PhantomData }
    }

    /// Reads the anchor: a handle to the slot it leads to, made for the
    /// incarnation that the slot holds now. Where it leads to a slot, the read
    /// fails if the pool has left the epoch of the guard; where it leads to
    /// none, the handle has the birth zero.
    pub fn load<'g>(&self, guard: &'g Guard<T>, global: &Global<T>) -> (res: Result<
        Shared<'g, T>,
        Retry,
    >)
        requires
            self.wf(global@),
        ensures
            untagged::<Ver<T>>(self@) == 0 || guard@ == global@.epoch ==> res.is_ok()
                && res.unwrap()@ == (SharedView {
                ptr: self@,
                birth: birth_behind(global@, self@),
            }),
            untagged::<Ver<T>>(self@) != 0 && guard@ != global@.epoch ==> res.is_err(),
    {
        let ptr: usize = self.link;
        let addr: usize = ptr_with_tag::<Ver<T>>(ptr, 0);
        if addr != 0 {
            let birth: u64 = global.ver(addr).birth();
            match guard.validate_epoch(global) {
                Ok(_) => Ok(Shared::from_parts(ptr, birth)),
                Err(retry) => Err(retry),
            }
        } else {
            Ok(Shared::from_parts(ptr, 0))
        }
    }
}

/// A plain field of a payload. A read of it is good only while the pool
/// stands at the epoch of the guard that reads.
pub struct ImmAtomic<T: Copy> {
    data: T,
}

impl<T: Copy> View for ImmAtomic<T> {
    type V = T;

    /// The value of the field.
    closed spec fn view(&self) -> T {
        self.data
    }
}

impl<T: Copy> ImmAtomic<T> {
    /// A field that holds `v`.
    pub fn new(v: T) -> (field: Self)
        ensures
            field@ == v,
    {
        ImmAtomic { data: v }
    }

    /// The value of the field, unless the pool has left the epoch of the
    /// guard.
    pub fn get<G>(&self, guard: &Guard<G>, global: &Global<G>) -> (res: Result<T, Retry>)
        ensures
            guard@ == global@.epoch ==> res == Ok::<T, Retry>(self@),
            guard@ != global@.epoch ==> res.is_err(),
    {
        let value: T = self.data;
        match guard.validate_epoch(global) {
            Ok(_) => Ok(value),
            Err(retry) => Err(retry),
        }
    }

    /// Sets the field to `v`.
    pub fn set(&mut self, v: T)
        ensures
            final(self)@ == v,
    {
        self.data = v;
    }
}

} // verus!
