//! Bags: fixed-capacity batches of slot addresses.
//!
//! A bag is the unit in which slots travel between the pool and the caches of
//! the threads. Its capacity is rigid: a push into a full bag fails, and the
//! caller turns to another bag.

use vstd::prelude::*;
use arrayvec::{ArrayVec, CapacityError};
use core::marker::PhantomData;
use crate::arena::{addr_of, addressable, lemma_addr_of_index, slot_address};

verus! {

/// The number of addresses that a bag holds at most.
pub const ENTRIES_PER_BAG: usize = 64;

#[verifier::external_type_specification]
#[verifier::external_body]
#[verifier::reject_recursive_types(T)]
pub struct ExArrayVec<T, const CAP: usize>(ArrayVec<T, CAP>);

#[verifier::external_type_specification]
#[verifier::external_body]
#[verifier::reject_recursive_types(T)]
pub struct ExCapacityError<T>(CapacityError<T>);

/// The addresses that a vector of capacity 64 holds, in the order in which
/// they were pushed.
pub uninterp spec fn entries_of(entries: ArrayVec<usize, 64>) -> Seq<usize>;

/// `ArrayVec::new`: the new vector is empty.
#[verifier::external_body]
fn entries_new() -> (entries: ArrayVec<usize, 64>)
    ensures
        entries_of(entries) == Seq::<usize>::empty(),
{
    ArrayVec::new()
}

/// `ArrayVec::from` on an array of the vector's capacity: the vector is full
/// and holds the elements of the array in the array's order.
#[verifier::external_body]
fn entries_from(array: [usize; 64]) -> (entries: ArrayVec<usize, 64>)
    ensures
        entries_of(entries) == array@,
{
    ArrayVec::from(array)
}

/// `ArrayVec::try_push`: while fewer than 64 elements are held the element is
/// appended; a full vector is left as it is and the call fails.
#[verifier::external_body]
fn entries_try_push(entries: &mut ArrayVec<usize, 64>, element: usize) -> (res: Result<
    (),
    CapacityError<usize>,
>)
    ensures
        res.is_ok() == (entries_of(*old(entries)).len() < 64),
        res.is_ok() ==> entries_of(*final(entries)) == entries_of(*old(entries)).push(element),
        res.is_err() ==> entries_of(*final(entries)) == entries_of(*old(entries)),
{
    entries.try_push(element)
}

/// `ArrayVec::pop`: the last element leaves the vector and is returned; an
/// empty vector is left as it is and gives `None`.
#[verifier::external_body]
fn entries_pop(entries: &mut ArrayVec<usize, 64>) -> (last: Option<usize>)
    ensures
        entries_of(*old(entries)).len() == 0 ==> last.is_none() && entries_of(*final(entries))
            == entries_of(*old(entries)),
        entries_of(*old(entries)).len() > 0 ==> last == Some(entries_of(*old(entries)).last())
            && entries_of(*final(entries)) == entries_of(*old(entries)).drop_last(),
{
    entries.pop()
}

/// A batch of at most 64 addresses of cells of type `T`, with the link that
/// chains it into a stack of bags.
pub struct Bag<T> {
    /// The stamped word that leads to the bag below this one in a stack.
    next: u128,
    entries: ArrayVec<usize, 64>,
    _marker: PhantomData<T>,
}

impl<T> View for Bag<T> {
    type V = Seq<usize>;

    /// The addresses in the bag, in the order in which they were pushed.
    closed spec fn view(&self) -> Seq<usize> {
        entries_of(self.entries)
    }
}

/// The addresses of the `count` cells of an arena that start at index `first`.
pub open spec fn fresh_addrs<T>(first: int, count: nat) -> Seq<usize> {
    Seq::new(count, |j: int| addr_of::<T>(first + j) as usize)
}

impl<T> Bag<T> {
    /// The link of the bag.
    pub closed spec fn next_word(&self) -> u128 {
        self.next
    }

    /// An empty bag that is linked to nothing.
    pub fn new() -> (bag: Self)
        ensures
            bag@ == Seq::<usize>::empty(),
            bag.next_word() == 0,
    {
        Bag { next: 0, entries: entries_new(), _marker: PhantomData }
    }

    /// A full bag of cells that did not exist before: 64 cells are appended to
    /// `arena`, each with the default value of `T`, and the bag holds their
    /// addresses in the order of the cells.
    pub fn new_with_alloc(arena: &mut Vec<T>) -> (bag: Self) where T: Default
        requires
            addressable::<T>(old(arena)@.len() + ENTRIES_PER_BAG),
        ensures
            final(arena)@.len() == old(arena)@.len() + ENTRIES_PER_BAG,
            final(arena)@.subrange(0, old(arena)@.len() as int) == old(arena)@,
            forall|i: int|
                old(arena)@.len() <= i < final(arena)@.len() ==> call_ensures(
                    T::default,
                    (),
                    #[trigger] final(arena)@[i],
                ),
            bag@ == fresh_addrs::<T>(old(arena)@.len() as int, ENTRIES_PER_BAG as nat),
            bag.next_word() == 0,
    {
        let ghost first = arena@.len() as int;
        let mut alloc: [usize; 64] = [0usize; 64];
        let mut j: usize = 0;
        while j < ENTRIES_PER_BAG
            invariant
                j <= ENTRIES_PER_BAG,
                first == old(arena)@.len(),
                addressable::<T>(first + ENTRIES_PER_BAG),
                arena@.len() == first + j,
                arena@.subrange(0, first) == old(arena)@,
                forall|i: int| first <= i < arena@.len() ==> call_ensures(T::default, (), #[trigger] arena@[i]),
                forall|i: int| 0 <= i < j ==> #[trigger] alloc@[i] == addr_of::<T>(first + i),
            decreases ENTRIES_PER_BAG - j,
        {
            let index: usize = arena.len();
            proof {
                lemma_addr_of_index::<T>(index as int, first + ENTRIES_PER_BAG);
            }
            let cell: T = T::default();
            arena.push(cell);
            alloc[j] = slot_address::<T>(index);
            assert(arena@.subrange(0, first) == old(arena)@);
            j = j + 1;
        }
        let entries = entries_from(alloc);
        assert(entries_of(entries) == fresh_addrs::<T>(first, ENTRIES_PER_BAG as nat));
        Bag { next: 0, entries, _marker: PhantomData }
    }

    /// Adds `obj` on top of the bag, unless the bag is full.
    pub fn push(&mut self, obj: usize) -> (pushed: bool)
        ensures
            pushed == (old(self)@.len() < ENTRIES_PER_BAG),
            pushed ==> final(self)@ == old(self)@.push(obj),
            !pushed ==> final(self)@ == old(self)@,
            final(self).next_word() == old(self).next_word(),
    {
        entries_try_push(&mut self.entries, obj).is_ok()
    }

    /// Takes the address on top of the bag, if there is one.
    pub fn pop(&mut self) -> (obj: Option<usize>)
        ensures
            old(self)@.len() == 0 ==> obj.is_none() && final(self)@ == old(self)@,
            old(self)@.len() > 0 ==> obj == Some(old(self)@.last()) && final(self)@ == old(self)@.drop_last(),
            final(self).next_word() == old(self).next_word(),
    {
        entries_pop(&mut self.entries)
    }

    /// The link of the bag.
    pub fn next(&self) -> (word: u128)
        ensures
            word == self.next_word(),
    {
        self.next
    }

    /// Replaces the link of the bag and leaves its addresses alone.
    pub fn set_next(&mut self, word: u128)
        ensures
            final(self).next_word() == word,
            final(self)@ == old(self)@,
    {
        self.next = word;
    }
}

} // verus!
