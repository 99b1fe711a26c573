//! The stack of bags that makes up the pool.
//!
//! The bags live in an arena of their own and are known by handles: the bag at
//! index `i` of the arena has the handle `i + 1`, and zero stands for no bag. A
//! bag is either linked into the stack or out, lent to whoever popped or
//! created it. The head of the stack is one stamped word: the number of pushes
//! so far above the handle of the top bag. A push raises the stamp, a pop
//! leaves it alone, so that a head word that is seen twice stands for the same
//! stack both times.

use vstd::prelude::*;
use crate::bag::{Bag, ENTRIES_PER_BAG};
use crate::retry::Retry;
use crate::word::{
    compare_exchange,
    compose_u128,
    decompose_u128,
    lemma_pack_unpack,
    lemma_pack_zero,
    pack,
    ptr_of,
    stamp_of,
};

verus! {

/// What a stack of bags is, apart from how it is linked: the stamp of its
/// head, the handles of the linked bags from the top down, and the addresses in
/// every bag of the arena, linked or not.
pub struct StackView {
    pub stamp: u64,
    pub chain: Seq<usize>,
    pub bags: Seq<Seq<usize>>,
}

impl StackView {
    /// Whether `bag` is the handle of a bag of the arena.
    pub open spec fn is_bag(self, bag: usize) -> bool {
        1 <= bag <= self.bags.len()
    }

    /// The addresses in the bag `bag`.
    pub open spec fn entries(self, bag: usize) -> Seq<usize>
        recommends
            self.is_bag(bag),
    {
        self.bags[bag - 1]
    }

    /// Whether the bag `bag` is out: a bag of the arena that is not linked.
    pub open spec fn is_out(self, bag: usize) -> bool {
        self.is_bag(bag) && !self.chain.contains(bag)
    }

    /// Every linked handle is a bag of the arena, and none is linked twice.
    pub open spec fn wf(self) -> bool {
        &&& self.bags.len() <= usize::MAX
        &&& forall|i: int|
            0 <= i < self.bags.len() ==> (#[trigger] self.bags[i]).len()
                <= ENTRIES_PER_BAG
        &&& self.chain.no_duplicates()
        &&& forall|i: int| 0 <= i < self.chain.len() ==> self.is_bag(#[trigger] self.chain[i])
    }

    /// The stack after a push of `bag`.
    pub open spec fn pushed(self, bag: usize) -> StackView {
        StackView { stamp: (self.stamp + 1) as u64, chain: seq![bag] + self.chain, ..self }
    }

    /// The stack after a pop.
    pub open spec fn popped(self) -> StackView {
        StackView { chain: self.chain.drop_first(), ..self }
    }

    /// The arena after a bag with the addresses `entries` has entered it.
    pub open spec fn adopted(self, entries: Seq<usize>) -> StackView {
        StackView { bags: self.bags.push(entries), ..self }
    }

    /// The arena after the addresses of `bag` were replaced by `entries`.
    pub open spec fn with_entries(self, bag: usize, entries: Seq<usize>) -> StackView {
        StackView { bags: self.bags.update(bag - 1, entries), ..self }
    }

    /// The bags that are out.
    pub open spec fn out(self) -> Set<usize> {
        Set::new(|bag: usize| self.is_out(bag))
    }
}

impl StackView {
    /// The bags that are linked.
    pub open spec fn linked(self) -> Set<usize> {
        Set::new(|bag: usize| self.chain.contains(bag))
    }

    /// Every bag of the arena is in one place: linked or out, never both.
    pub proof fn law_every_bag_in_one_place(self)
        requires
            self.wf(),
        ensures
            forall|bag: usize|
                self.is_bag(bag) ==> (#[trigger] self.linked().contains(bag)
                    != self.out().contains(bag)),
            forall|bag: usize| #[trigger]
                self.linked().contains(bag) || self.out().contains(bag) ==> self.is_bag(bag),
    {
        assert forall|bag: usize| #[trigger]
            self.linked().contains(bag) || self.out().contains(bag) implies self.is_bag(bag) by {
            if self.chain.contains(bag) {
                let k = choose|k: int| 0 <= k < self.chain.len() && self.chain[k] == bag;
                assert(self.is_bag(self.chain[k]));
            }
        }
    }

    /// A push moves one bag from out to linked and leaves every other bag
    /// where it was: none is lost and none is there twice.
    pub proof fn law_push_conserves(self, bag: usize)
        requires
            self.wf(),
            self.is_out(bag),
        ensures
            self.pushed(bag).wf(),
            self.pushed(bag).linked() == self.linked().insert(bag),
            self.pushed(bag).out() == self.out().remove(bag),
            self.pushed(bag).chain.len() == self.chain.len() + 1,
    {
        let after = self.pushed(bag);
        assert forall|i: int| 0 <= i < after.chain.len() implies after.is_bag(
            #[trigger] after.chain[i],
        ) by {
            if i > 0 {
                assert(after.chain[i] == self.chain[i - 1]);
            }
        }
        assert forall|i: int, j: int|
            0 <= i < after.chain.len() && 0 <= j < after.chain.len() && i
                != j implies after.chain[i] != after.chain[j] by {
            if i > 0 {
                assert(after.chain[i] == self.chain[i - 1]);
            }
            if j > 0 {
                assert(after.chain[j] == self.chain[j - 1]);
            }
        }
        assert forall|other: usize| after.chain.contains(other) <==> self.chain.contains(other)
            || other == bag by {
            if after.chain.contains(other) {
                let k = choose|k: int| 0 <= k < after.chain.len() && after.chain[k] == other;
                if k > 0 {
                    assert(self.chain[k - 1] == other);
                }
            }
            if self.chain.contains(other) {
                let k = choose|k: int| 0 <= k < self.chain.len() && self.chain[k] == other;
                assert(after.chain[k + 1] == other);
            }
            assert(after.chain[0] == bag);
        }
        assert(after.linked() =~= self.linked().insert(bag));
        assert(after.out() =~= self.out().remove(bag));
    }

    /// A pop moves the top bag from linked to out and leaves every other bag
    /// where it was: none is lost and none is there twice.
    pub proof fn law_pop_conserves(self)
        requires
            self.wf(),
            self.chain.len() > 0,
        ensures
            self.popped().wf(),
            self.popped().linked() == self.linked().remove(self.chain[0]),
            self.popped().out() == self.out().insert(self.chain[0]),
            self.popped().chain.len() == self.chain.len() - 1,
    {
        let after = self.popped();
        let top = self.chain[0];
        assert(self.is_bag(top));
        assert forall|i: int| 0 <= i < after.chain.len() implies after.is_bag(
            #[trigger] after.chain[i],
        ) by {
            assert(after.chain[i] == self.chain[i + 1]);
        }
        assert forall|other: usize| after.chain.contains(other) <==> self.chain.contains(other)
            && other != top by {
            if after.chain.contains(other) {
                let k = choose|k: int| 0 <= k < after.chain.len() && after.chain[k] == other;
                assert(self.chain[k + 1] == other);
            }
            if self.chain.contains(other) && other != top {
                let k = choose|k: int| 0 <= k < self.chain.len() && self.chain[k] == other;
                assert(after.chain[k - 1] == other);
            }
        }
        assert(after.linked() =~= self.linked().remove(top));
        assert(after.out() =~= self.out().insert(top));
    }
}

/// A stack of bags of addresses of cells of type `T`, with the arena that the
/// bags live in.
pub struct BagStack<T> {
    /// The stamp above the handle of the top bag.
    head: u128,
    bags: Vec<Bag<T>>,
    chain: Ghost<Seq<usize>>,
    /// The chain as the last push left it.
    base: Ghost<Seq<usize>>,
    /// The number of pops since the last push.
    depth: Ghost<nat>,
}

/// What a thread has read of a stack before it tries to change it: the head
/// word and, where the stack was not empty, the link of the top bag.
#[derive(Clone, Copy, Debug)]
pub struct Observation {
    head: u128,
    next: u128,
}

impl Observation {
    /// The head word that was read.
    pub closed spec fn head_word(self) -> u128 {
        self.head
    }

    /// The link of the top bag that was read.
    pub closed spec fn next_word(self) -> u128 {
        self.next
    }
}

/// The handle at position `k` of `chain`, or zero below the bottom.
pub open spec fn handle_at(chain: Seq<usize>, k: int) -> usize {
    if 0 <= k < chain.len() {
        chain[k]
    } else {
        0
    }
}

impl<T> View for BagStack<T> {
    type V = StackView;

    closed spec fn view(&self) -> StackView {
        StackView {
            stamp: stamp_of(self.head),
            chain: self.chain@,
            bags: Seq::new(self.bags@.len(), |i: int| self.bags@[i]@),
        }
    }
}

impl<T> BagStack<T> {
    /// The handle below the linked bag at position `i`, or zero at the bottom.
    spec fn below(&self, i: int) -> usize {
        handle_at(self.chain@, i + 1)
    }

    /// The head word of the stack: the stamp above the handle of the top
    /// bag.
    pub open spec fn head_word(&self) -> u128 {
        pack(self@.stamp, handle_at(self@.chain, 0))
    }

    /// The link of the bag `bag`: the stamped word that a push wrote into it,
    /// or zero once a pop has cleared it.
    pub closed spec fn link_of(&self, bag: usize) -> u128 {
        self.bags@[bag - 1].next_word()
    }

    /// Whether every bag of `before` but `except` has the link that it had in
    /// `before`. No bag has the handle zero: with zero, every bag is meant.
    pub open spec fn links_kept(&self, before: &Self, except: usize) -> bool {
        forall|bag: usize|
            before@.is_bag(bag) && bag != except ==> #[trigger] self.link_of(bag)
                == before.link_of(bag)
    }

    /// The links spell the chain: the head leads to the top bag, and the link
    /// of every linked bag to the one below it.
    pub closed spec fn links_hold(&self) -> bool {
        &&& self.head == pack(stamp_of(self.head), ptr_of(self.head))
        &&& ptr_of(self.head) == self.below(-1)
        &&& forall|i: int|
            0 <= i < self.chain@.len() ==> ptr_of(
                #[trigger] self.bags@[self.chain@[i] - 1].next_word(),
            ) == self.below(i)
        &&& self.depth@ <= self.base@.len()
        &&& self.chain@ == self.base@.skip(self.depth@ as int)
        &&& self.base@.no_duplicates()
        &&& forall|k: int| 0 <= k < self.base@.len() ==> #[trigger] self.base@[k] != 0
    }

    /// Whether this stack is `before` after some pushes and pops.
    pub closed spec fn follows(&self, before: &Self) -> bool {
        ||| before@.stamp < self@.stamp
        ||| (before@.stamp == self@.stamp && before.base@ == self.base@ && before.depth@
            <= self.depth@)
    }

    /// Whether `seen` can have been read from this stack or from a stack that
    /// this one follows.
    pub closed spec fn admits(&self, seen: Observation) -> bool {
        &&& seen.head == pack(stamp_of(seen.head), ptr_of(seen.head))
        &&& {
            ||| stamp_of(seen.head) < self@.stamp
            ||| (stamp_of(seen.head) == self@.stamp && exists|k: int|
                0 <= k <= self.depth@ && ptr_of(seen.head) == #[trigger] handle_at(self.base@, k)
                    && (ptr_of(seen.head) != 0 ==> ptr_of(seen.next) == handle_at(
                    self.base@,
                    k + 1,
                )))
        }
    }

    /// Every stack follows itself.
    pub proof fn law_follows_itself(&self)
        ensures
            self.follows(self),
    {
    }

    /// A stack follows every stack that a stack before it follows.
    pub proof fn law_follows_chains(&self, middle: &Self, before: &Self)
        requires
            middle.follows(before),
            self.follows(middle),
        ensures
            self.follows(before),
    {
    }

    /// What was read stays admitted, whatever is pushed and popped after the
    /// read.
    pub proof fn law_admitted_stays_admitted(&self, before: &Self, seen: Observation)
        requires
            before.admits(seen),
            self.follows(before),
        ensures
            self.admits(seen),
    {
        if stamp_of(seen.head) == self@.stamp {
            let k = choose|k: int|
                0 <= k <= before.depth@ && ptr_of(seen.head) == #[trigger] handle_at(
                    before.base@,
                    k,
                ) && (ptr_of(seen.head) != 0 ==> ptr_of(seen.next) == handle_at(
                    before.base@,
                    k + 1,
                ));
            assert(ptr_of(seen.head) == handle_at(self.base@, k));
        }
    }

    /// A head word that is seen again stands for the same stack: if what was
    /// read is admitted and its head word is the head word now, the link that
    /// was read leads to the bag below the top now.
    pub proof fn law_same_head_same_stack(&self, seen: Observation)
        requires
            self.wf(),
            self.admits(seen),
            seen.head_word() == self.head_word(),
        ensures
            ptr_of(seen.head_word()) == handle_at(self@.chain, 0),
            self@.chain.len() > 0 ==> ptr_of(seen.next_word()) == handle_at(self@.chain, 1),
    {
        let k = choose|k: int|
            0 <= k <= self.depth@ && ptr_of(seen.head) == #[trigger] handle_at(self.base@, k) && (
            ptr_of(seen.head) != 0 ==> ptr_of(seen.next) == handle_at(self.base@, k + 1));
        let d = self.depth@ as int;
        assert(handle_at(self@.chain, 0) == handle_at(self.base@, d));
        assert(handle_at(self@.chain, 1) == handle_at(self.base@, d + 1));
        if self@.chain.len() > 0 {
            assert(self.base@[d] != 0);
            assert(k < self.base@.len());
            assert(k == d);
        }
    }

    /// The invariant of the stack.
    pub open spec fn wf(&self) -> bool {
        self@.wf() && self.links_hold()
    }

    /// An empty stack over an empty arena.
    pub fn new() -> (stack: Self)
        ensures
            stack.wf(),
            stack@ == (StackView { stamp: 0, chain: Seq::empty(), bags: Seq::empty() }),
    {
        let stack = BagStack {
            head: 0,
            bags: Vec::new(),
            chain: Ghost(Seq::empty()),
            base: Ghost(Seq::empty()),
            depth: Ghost(0),
        };
        assert(stack.chain@ =~= stack.base@.skip(0));
        assert(stack@.bags =~= Seq::empty());
        stack
    }

    /// The number of pushes so far.
    pub fn stamp(&self) -> (stamp: u64)
        ensures
            stamp == self@.stamp,
    {
        decompose_u128(self.head).0
    }

    /// The number of bags in the arena, linked or out.
    pub fn bag_count(&self) -> (count: usize)
        ensures
            count == self@.bags.len(),
    {
        self.bags.len()
    }

    /// The link of the bag `bag`.
    pub fn bag_link(&self, bag: usize) -> (word: u128)
        requires
            self@.is_bag(bag),
        ensures
            word == self.link_of(bag),
    {
        self.bags[bag - 1].next()
    }

    /// The head word of the stack.
    pub fn head(&self) -> (word: u128)
        requires
            self.wf(),
        ensures
            word == self.head_word(),
    {
        self.head
    }

    /// Reads the head word and, where the stack is not empty, the link of the
    /// top bag.
    pub fn observe(&self) -> (seen: Observation)
        requires
            self.wf(),
        ensures
            self.admits(seen),
            seen.head_word() == self.head_word(),
    {
        let (_, head) = decompose_u128(self.head);
        if head == 0 {
            let seen = Observation { head: self.head, next: 0 };
            proof {
                lemma_pack_zero();
                if self.chain@.len() > 0 {
                    assert(self@.is_bag(self.chain@[0]));
                }
                assert(ptr_of(seen.head) == handle_at(self.base@, self.depth@ as int));
            }
            seen
        } else {
            assert(self.chain@.len() > 0);
            assert(self@.is_bag(self.chain@[0]));
            let seen = Observation { head: self.head, next: self.bags[head - 1].next() };
            proof {
                let d = self.depth@ as int;
                assert(self.chain@[0] == self.base@[d]);
                assert(ptr_of(seen.head) == handle_at(self.base@, d));
                assert(self.below(0) == handle_at(self.base@, d + 1));
            }
            seen
        }
    }

    /// Takes the top bag off the stack and hands it out. An empty stack gives
    /// `None` and stays as it is.
    pub fn pop(&mut self) -> (popped: Option<usize>)
        requires
            old(self).wf(),
        ensures
            final(self).wf(),
            final(self).follows(old(self)),
            old(self)@.chain.len() == 0 ==> popped.is_none() && final(self)@ == old(self)@
                && final(self).links_kept(old(self), 0),
            old(self)@.chain.len() > 0 ==> popped == Some(old(self)@.chain[0]) && final(self)@
                == old(self)@.popped() && final(self).link_of(old(self)@.chain[0]) == 0 && final(self).links_kept(old(self), old(self)@.chain[0]),
    {
        loop
            invariant
                *self == *old(self),
                self.wf(),
            decreases 0int,
        {
            let seen = self.observe();
            proof {
                self.law_same_head_same_stack(seen);
                if self@.chain.len() > 0 {
                    assert(self@.is_bag(self@.chain[0]));
                }
            }
            if let Ok(popped) = self.try_pop(seen) {
                return popped;
            }
        }
    }

    /// The pop of a thread that read `seen` some time ago. Where it read an
    /// empty stack there is nothing to take. Otherwise, if the head word is
    /// still the one that was read, the stack is as it was read: the head is
    /// exchanged for the link that was read, under the same stamp, the link
    /// of the bag is cleared and the bag is handed out. If the head word is
    /// another, the stack is left as it is and the thread must read again.
    pub fn try_pop(&mut self, seen: Observation) -> (res: Result<Option<usize>, Retry>)
        requires
            old(self).wf(),
            old(self).admits(seen),
        ensures
            final(self).wf(),
            final(self).follows(old(self)),
            ptr_of(seen.head_word()) == 0 ==> res == Ok::<Option<usize>, Retry>(None) && final(self)@
                == old(self)@ && final(self).links_kept(old(self), 0),
            ptr_of(seen.head_word()) != 0 && seen.head_word() != old(self).head_word()
                ==> res.is_err() && final(self)@ == old(self)@ && final(self).links_kept(
                old(self),
                0,
            ),
            ptr_of(seen.head_word()) != 0 && seen.head_word() == old(self).head_word() ==> res
                == Ok::<Option<usize>, Retry>(Some(old(self)@.chain[0])) && final(self)@ == old(self)@.popped()
                && final(self).link_of(old(self)@.chain[0]) == 0 && final(self).links_kept(
                old(self),
                old(self)@.chain[0],
            ),
    {
        let (ts, head) = decompose_u128(seen.head);
        if head == 0 {
            return Ok(None);
        }
        let (_, next) = decompose_u128(seen.next);
        let ghost before = *self;
        match compare_exchange(&mut self.head, seen.head, compose_u128(ts, next)) {
            Ok(_) => {
                proof {
                    before.law_same_head_same_stack(seen);
                    assert(before.chain@.len() > 0);
                    assert(before@.is_bag(before.chain@[0]));
                }
                self.bags[head - 1].set_next(0);
                self.chain = Ghost(self.chain@.drop_first());
                self.depth = Ghost(self.depth@ + 1);
                proof {
                    lemma_pack_unpack(ts, next);
                    assert(self@.bags =~= before@.bags);
                    assert(self.chain@ =~= self.base@.skip(self.depth@ as int));
                    assert forall|i: int| 0 <= i < self.chain@.len() implies ptr_of(
                        #[trigger] self.bags@[self.chain@[i] - 1].next_word(),
                    ) == self.below(i) by {
                        assert(self.chain@[i] == before.chain@[i + 1]);
                        assert(before@.is_bag(before.chain@[i + 1]));
                        assert(before.chain@[i + 1] != before.chain@[0]);
                        assert(before.below(i + 1) == self.below(i));
                    }
                    assert(self@.wf()) by {
                        assert forall|i: int| 0 <= i < self.chain@.len() implies self@.is_bag(
                            #[trigger] self.chain@[i],
                        ) by {
                            assert(self.chain@[i] == before.chain@[i + 1]);
                        }
                    }
                }
                Ok(Some(head))
            },
            Err(_) => Err(Retry),
        }
    }

    /// Links the bag `bag`, which is out, on top of the stack.
    pub fn push(&mut self, bag: usize)
        requires
            old(self).wf(),
            old(self)@.is_out(bag),
            old(self)@.stamp < u64::MAX,
        ensures
            final(self).wf(),
            final(self).follows(old(self)),
            final(self)@ == old(self)@.pushed(bag),
            final(self).link_of(bag) == old(self).head_word(),
            final(self).links_kept(old(self), bag),
    {
        loop
            invariant
                *self == *old(self),
                self.wf(),
                self@.is_out(bag),
                self@.stamp < u64::MAX,
            decreases 0int,
        {
            let seen = self.observe();
            if self.try_push(seen, bag).is_ok() {
                return ;
            }
        }
    }

    /// The push of a thread that read `seen` some time ago. The head word
    /// that was read is written into the link of the bag. If it is still the
    /// head word, it is exchanged for the handle of the bag under the next
    /// stamp. If it is another, the stack is left as it is and the thread must
    /// read again.
    pub fn try_push(&mut self, seen: Observation, bag: usize) -> (res: Result<(), Retry>)
        requires
            old(self).wf(),
            old(self).admits(seen),
            old(self)@.is_out(bag),
            old(self)@.stamp < u64::MAX,
        ensures
            final(self).wf(),
            final(self).follows(old(self)),
            seen.head_word() != old(self).head_word() ==> res.is_err() && final(self)@ == old(self)@,
            seen.head_word() == old(self).head_word() ==> res.is_ok() && final(self)@ == old(self)@.pushed(bag),
            final(self).link_of(bag) == seen.head_word(),
            final(self).links_kept(old(self), bag),
    {
        let ghost before = *self;
        let (ts, head) = decompose_u128(seen.head);
        self.bags[bag - 1].set_next(compose_u128(ts, head));
        proof {
            before.lemma_stamp_of_admitted(seen);
            assert(before@.bags[bag - 1].len() <= ENTRIES_PER_BAG);
            self.lemma_entries_changed(before, bag);
            assert(self@.bags =~= before@.bags);
        }
        let ghost linked = *self;
        match compare_exchange(&mut self.head, seen.head, compose_u128(ts + 1, bag)) {
            Ok(_) => {
                self.chain = Ghost(seq![bag] + self.chain@);
                self.base = Ghost(self.chain@);
                self.depth = Ghost(0);
                proof {
                    lemma_pack_unpack(ts, head);
                    lemma_pack_unpack((ts + 1) as u64, bag);
                    assert(self@.bags =~= before@.bags);
                    assert(self.chain@ =~= self.base@.skip(0));
                    assert forall|i: int| 0 <= i < self.chain@.len() implies ptr_of(
                        #[trigger] self.bags@[self.chain@[i] - 1].next_word(),
                    ) == self.below(i) by {
                        if i > 0 {
                            assert(self.chain@[i] == before.chain@[i - 1]);
                            assert(before@.is_bag(before.chain@[i - 1]));
                            assert(before.chain@.contains(before.chain@[i - 1]));
                            assert(linked.below(i - 1) == self.below(i));
                        } else {
                            assert(before.below(-1) == self.below(0));
                        }
                    }
                    assert forall|i: int| 0 <= i < self.chain@.len() implies self@.is_bag(
                        #[trigger] self.chain@[i],
                    ) by {
                        if i > 0 {
                            assert(self.chain@[i] == before.chain@[i - 1]);
                        }
                    }
                    assert forall|i: int, j: int|
                        0 <= i < self.chain@.len() && 0 <= j < self.chain@.len() && i
                            != j implies self.chain@[i] != self.chain@[j] by {
                        if i > 0 {
                            assert(self.chain@[i] == before.chain@[i - 1]);
                        }
                        if j > 0 {
                            assert(self.chain@[j] == before.chain@[j - 1]);
                        }
                    }
                    assert forall|k: int| 0 <= k < self.base@.len() implies #[trigger] self.base@[k]
                        != 0 by {
                        assert(self@.is_bag(self.chain@[k]));
                    }
                }
                Ok(())
            },
            Err(_) => Err(Retry),
        }
    }

    /// What was read of a stack has a stamp that the stack has reached.
    proof fn lemma_stamp_of_admitted(&self, seen: Observation)
        requires
            self.admits(seen),
        ensures
            stamp_of(seen.head) <= self@.stamp,
    {
    }

    /// Moves `bag` into the arena and returns its handle. The bag is out: it
    /// is linked to nothing.
    pub fn adopt(&mut self, bag: Bag<T>) -> (handle: usize)
        requires
            old(self).wf(),
            bag@.len() <= ENTRIES_PER_BAG,
        ensures
            final(self).wf(),
            final(self).follows(old(self)),
            handle == old(self)@.bags.len() + 1,
            final(self)@ == old(self)@.adopted(bag@),
            final(self)@.is_out(handle),
            final(self).link_of(handle) == bag.next_word(),
            final(self).links_kept(old(self), 0),
    {
        let ghost before = *self;
        self.bags.push(bag);
        let handle: usize = self.bags.len();
        proof {
            assert(self@.bags =~= before@.bags.push(bag@));
            assert forall|i: int| 0 <= i < self.chain@.len() implies ptr_of(
                #[trigger] self.bags@[self.chain@[i] - 1].next_word(),
            ) == self.below(i) by {
                assert(before@.is_bag(before.chain@[i]));
            }
            assert(self@.wf()) by {
                assert forall|i: int| 0 <= i < self.chain@.len() implies self@.is_bag(
                    #[trigger] self.chain@[i],
                ) by {
                    assert(before@.is_bag(before.chain@[i]));
                }
            }
            if self.chain@.contains(handle) {
                let k = choose|k: int| 0 <= k < self.chain@.len() && self.chain@[k] == handle;
                assert(before@.is_bag(before.chain@[k]));
            }
        }
        handle
    }

    /// Adds `obj` on top of the bag `bag`, unless the bag is full.
    pub fn bag_push(&mut self, bag: usize, obj: usize) -> (pushed: bool)
        requires
            old(self).wf(),
            old(self)@.is_bag(bag),
        ensures
            final(self).wf(),
            final(self).follows(old(self)),
            pushed == (old(self)@.entries(bag).len() < ENTRIES_PER_BAG),
            pushed ==> final(self)@ == old(self)@.with_entries(
                bag,
                old(self)@.entries(bag).push(obj),
            ),
            !pushed ==> final(self)@ == old(self)@,
            final(self).links_kept(old(self), 0),
    {
        let ghost before = *self;
        assert(before@.bags[bag - 1].len() <= ENTRIES_PER_BAG);
        let pushed = self.bags[bag - 1].push(obj);
        proof {
            self.lemma_entries_changed(before, bag);
        }
        pushed
    }

    /// Takes the address on top of the bag `bag`, if there is one.
    pub fn bag_pop(&mut self, bag: usize) -> (obj: Option<usize>)
        requires
            old(self).wf(),
            old(self)@.is_bag(bag),
        ensures
            final(self).wf(),
            final(self).follows(old(self)),
            old(self)@.entries(bag).len() == 0 ==> obj.is_none() && final(self)@ == old(self)@,
            old(self)@.entries(bag).len() > 0 ==> obj == Some(old(self)@.entries(bag).last())
                && final(self)@ == old(self)@.with_entries(
                bag,
                old(self)@.entries(bag).drop_last(),
            ),
            final(self).links_kept(old(self), 0),
    {
        let ghost before = *self;
        assert(before@.bags[bag - 1].len() <= ENTRIES_PER_BAG);
        let obj = self.bags[bag - 1].pop();
        proof {
            self.lemma_entries_changed(before, bag);
        }
        obj
    }

    /// A change of the addresses of one bag leaves the links as they were.
    proof fn lemma_entries_changed(self, before: Self, bag: usize)
        requires
            before.wf(),
            before@.is_bag(bag),
            self.head == before.head,
            self.chain@ == before.chain@,
            self.base@ == before.base@,
            self.depth@ == before.depth@,
            self.bags@.len() == before.bags@.len(),
            forall|i: int|
                0 <= i < self.bags@.len() && i != bag - 1 ==> self.bags@[i] == before.bags@[i],
            before.chain@.contains(bag) ==> self.bags@[bag - 1].next_word() == before.bags@[bag
                - 1].next_word(),
            self.bags@[bag - 1]@.len() <= ENTRIES_PER_BAG,
        ensures
            self.wf(),
            self.follows(&before),
            self@ == before@.with_entries(bag, self.bags@[bag - 1]@),
            self.bags@[bag - 1]@ == before.bags@[bag - 1]@ ==> self@ == before@,
    {
        assert(self@.bags =~= before@.bags.update(bag - 1, self.bags@[bag - 1]@));
        if self.bags@[bag - 1]@ == before.bags@[bag - 1]@ {
            assert(self@.bags =~= before@.bags);
        }
        assert forall|i: int| 0 <= i < self.chain@.len() implies ptr_of(
            #[trigger] self.bags@[self.chain@[i] - 1].next_word(),
        ) == self.below(i) by {
            assert(before@.is_bag(before.chain@[i]));
            assert(before.below(i) == self.below(i));
        }
        assert(self@.wf()) by {
            assert forall|i: int| 0 <= i < self@.bags.len() implies (#[trigger] self@.bags[i]).len()
                <= ENTRIES_PER_BAG by {
                if i != bag - 1 {
                    assert(before@.bags[i].len() <= ENTRIES_PER_BAG);
                }
            }
            assert forall|i: int| 0 <= i < self.chain@.len() implies self@.is_bag(
                #[trigger] self.chain@[i],
            ) by {
                assert(before@.is_bag(before.chain@[i]));
            }
        }
    }
}

} // verus!
