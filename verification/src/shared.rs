//! Handles to slots.
//!
//! A handle is the address of a slot, a tag in the low bits of the address,
//! and the birth that the holder believes the slot to have. The slot may have
//! been retired and taken for a new incarnation since the handle was made: a
//! read through the handle finds that out and gives nothing of the new
//! incarnation away.

use vstd::prelude::*;
use vstd::std_specs::cmp::PartialEqSpecImpl;
use core::marker::PhantomData;
use crate::arena::lemma_is_addr_grows;
use crate::global::{Global, GlobalView, SlotView, Ver};
use crate::retry::Retry;
use crate::word::{decompose_ptr, ptr_with_tag, tag_of, tagged, untagged};

verus! {

/// A handle to a slot of a pool of payloads of type `T`.
pub struct Shared<'g, T> {
    ptr: usize,
    birth: u64,
    _marker: PhantomData<&'g T>,
}

/// What a handle is: the tagged address and the birth it was made under.
pub struct SharedView {
    pub ptr: usize,
    pub birth: u64,
}

impl<'g, T> View for Shared<'g, T> {
    type V = SharedView;

    closed spec fn view(&self) -> SharedView {
        SharedView { ptr: self.ptr, birth: self.birth }
    }
}

impl<'g, T> Clone for Shared<'g, T> {
    fn clone(&self) -> (copy: Self)
        ensures
            copy@ == self@,
    {
        Shared { ptr: self.ptr, birth: self.birth, _marker: PhantomData }
    }
}

impl<'g, T> Copy for Shared<'g, T> {

}

impl<'g, T> PartialEq for Shared<'g, T> {
    /// Two handles are equal if both the tagged address and the birth agree.
    fn eq(&self, other: &Self) -> (equal: bool) {
        self.ptr == other.ptr && self.birth == other.birth
    }
}

impl<'g, T> PartialEqSpecImpl for Shared<'g, T> {
    open spec fn obeys_eq_spec() -> bool {
        true
    }

    open spec fn eq_spec(&self, other: &Self) -> bool {
        self@ == other@
    }
}

impl<'g, T> Shared<'g, T> {
    /// The address of the slot that the handle leads to, without the tag. Zero
    /// if it leads to none.
    pub open spec fn addr(&self) -> usize {
        untagged::<Ver<T>>(self@.ptr)
    }

    /// Whether the handle may be used with `pool`: it leads to no slot or to
    /// a slot of that pool.
    pub open spec fn wf(&self, pool: GlobalView<T>) -> bool {
        self.addr() == 0 || pool.is_slot(self.addr())
    }

    /// Whether the slot of `pool` that the handle leads to still holds the
    /// incarnation that the handle was made for.
    pub open spec fn is_current(&self, pool: GlobalView<T>) -> bool {
        pool.slot(self.addr()).birth == self@.birth
    }

    /// No stale read: once the slot that a handle leads to has been retired
    /// and born again, the handle is no longer current, so that nothing read
    /// through it gives the payload of the later incarnation.
    pub proof fn law_stale_handle_is_not_current(
        &self,
        before: GlobalView<T>,
        after: GlobalView<T>,
        retired_at: u64,
        reborn_at: u64,
    )
        requires
            self.is_current(before),
            before.slot(self.addr()).birth <= retired_at,
            before.slot(self.addr()).retired(retired_at).reusable_at(reborn_at),
            after.slot(self.addr()) == before.slot(self.addr()).retired(retired_at).reborn(
                reborn_at,
            ),
        ensures
            !self.is_current(after),
            self@.birth < after.slot(self.addr()).birth,
    {
    }

    /// A handle stays usable while the pool grows: the pool never gives up
    /// a slot.
    pub proof fn law_handle_outlives_growth(&self, before: GlobalView<T>, after: GlobalView<T>)
        requires
            self.wf(before),
            before.slots.len() <= after.slots.len(),
        ensures
            self.wf(after),
    {
        if self.addr() != 0 {
            lemma_is_addr_grows::<Ver<T>>(
                self.addr() as int,
                before.slots.len() as int,
                after.slots.len() as int,
            );
        }
    }

    /// A handle from its parts.
    pub(crate) fn from_parts(ptr: usize, birth: u64) -> (shared: Self)
        ensures
            shared@ == (SharedView { ptr, birth }),
    {
        Shared { ptr, birth, _marker: PhantomData }
    }

    /// The birth that the handle was made under.
    pub fn birth(&self) -> (birth: u64)
        ensures
            birth == self@.birth,
    {
        self.birth
    }

    /// The slot that the handle leads to, whatever incarnation it holds, or
    /// `None` if the handle leads to no slot.
    pub fn as_versioned<'a>(&self, global: &'a Global<T>) -> (slot: Option<&'a Ver<T>>)
        requires
            self.wf(global@),
        ensures
            self.addr() == 0 ==> slot.is_none(),
            self.addr() != 0 ==> slot.is_some() && slot.unwrap()@ == global@.slot(self.addr()),
    {
        let addr: usize = ptr_with_tag::<Ver<T>>(self.ptr, 0);
        if addr == 0 {
            None
        } else {
            Some(global.ver(addr))
        }
    }

    /// The payload of the slot that the handle leads to, which must be one.
    /// If the slot holds another incarnation than the one the handle was made
    /// for, the read is stale and nothing is returned but the signal to retry.
    pub fn deref<'a>(&self, global: &'a Global<T>) -> (res: Result<&'a T, Retry>)
        requires
            self.wf(global@),
            self.addr() != 0,
        ensures
            self.is_current(global@) ==> res.is_ok() && *res.unwrap() == global@.slot(
                self.addr(),
            ).data,
            !self.is_current(global@) ==> res.is_err(),
    {
        match self.as_versioned(global) {
            Some(ver) => {
                if ver.birth() == self.birth {
                    Ok(ver.data())
                } else {
                    Err(Retry)
                }
            },
            None => Err(Retry),
        }
    }

    /// The payload of the slot that the handle leads to, `None` if it leads to
    /// no slot. If the slot holds another incarnation than the one the handle
    /// was made for, the read is stale and nothing is returned but the signal
    /// to retry.
    pub fn as_ref<'a>(&self, global: &'a Global<T>) -> (res: Result<Option<&'a T>, Retry>)
        requires
            self.wf(global@),
        ensures
            self.addr() == 0 ==> res == Ok::<Option<&T>, Retry>(None),
            self.addr() != 0 && self.is_current(global@) ==> res.is_ok() && res.unwrap().is_some()
                && *res.unwrap().unwrap() == global@.slot(self.addr()).data,
            self.addr() != 0 && !self.is_current(global@) ==> res.is_err(),
    {
        match self.as_versioned(global) {
            Some(ver) => {
                if ver.birth() == self.birth {
                    Ok(Some(ver.data()))
                } else {
                    Err(Retry)
                }
            },
            None => Ok(None),
        }
    }

    /// Whether the handle is the null handle: no address and no tag.
    pub fn is_null(&self) -> (null: bool)
        ensures
            null == (self@.ptr == 0),
    {
        self.ptr == 0
    }

    /// The tag of the handle. If the handle leads to a slot that holds another
    /// incarnation than the one the handle was made for, the read is stale.
    pub fn tag(&self, global: &Global<T>) -> (res: Result<usize, Retry>)
        requires
            self.wf(global@),
        ensures
            self.addr() == 0 || self.is_current(global@) ==> res == Ok::<usize, Retry>(
                tag_of::<Ver<T>>(self@.ptr),
            ),
            self.addr() != 0 && !self.is_current(global@) ==> res.is_err(),
    {
        let result: usize = decompose_ptr::<Ver<T>>(self.ptr).1;
        match self.as_versioned(global) {
            Some(ver) => {
                if self.birth != ver.birth() {
                    return Err(Retry);
                }
            },
            None => {},
        }
        Ok(result)
    }

    /// The same handle under the tag `tag`, cut to the bits that the alignment
    /// of a slot leaves free.
    pub fn with_tag(&self, tag: usize) -> (shared: Self)
        ensures
            shared@ == (SharedView { ptr: tagged::<Ver<T>>(self@.ptr, tag), birth: self@.birth }),
            shared.addr() == self.addr(),
    {
        Shared { ptr: ptr_with_tag::<Ver<T>>(self.ptr, tag), birth: self.birth, _marker: PhantomData }
    }

    /// The tagged address of the handle.
    pub fn as_raw(&self) -> (ptr: usize)
        ensures
            ptr == self@.ptr,
    {
        self.ptr
    }

    /// Replaces the payload of the slot that the handle leads to, which must
    /// be one. If the slot holds another incarnation than the one the handle
    /// was made for, nothing is written.
    pub fn write(&self, global: &mut Global<T>, data: T) -> (res: Result<(), Retry>)
        requires
            old(global).wf(),
            self.wf(old(global)@),
            self.addr() != 0,
        ensures
            final(global).wf(),
            self.is_current(old(global)@) ==> res.is_ok() && final(global)@ == old(global)@.with_slot(self.addr(), SlotView { data, ..old(global)@.slot(self.addr()) }),
            !self.is_current(old(global)@) ==> res.is_err() && final(global)@ == old(global)@,
    {
        let addr: usize = ptr_with_tag::<Ver<T>>(self.ptr, 0);
        if global.ver(addr).birth() == self.birth {
            global.store(addr, data);
            Ok(())
        } else {
            Err(Retry)
        }
    }
}

} // verus!
