//! Version-based reclamation over an arena of reusable slots.
//!
//! Every slot carries the epoch at which its current incarnation was born and
//! the epoch at which it was retired. Handles remember the birth they were
//! produced under, and every read through a handle finds out whether the slot
//! still carries it. Slots are never freed: a retired slot is handed back to
//! the pool in bags of fixed size and stamped anew by a later allocation.
//!
//! The pool is owned by one party at a time: every operation that changes it
//! takes it by exclusive reference, and threads that share a pool take turns.
//! What one thread may do between two steps of another is spelled out where it
//! matters: a guard that has fallen behind the clock, a handle whose slot was
//! taken again, a head word of the stack that was read some time ago.
//!
//! - [`word`]: stamped words and tagged addresses.
//! - [`arena`]: the addresses of the cells of an arena.
//! - [`bag`]: fixed-capacity batches of slot addresses.
//! - [`stack`]: the stack of bags, with its stamped head.
//! - [`global`]: the pool: clock, slots and available bags.
//! - [`local`]: the cache of one thread.
//! - [`guard`]: sessions that allocate and retire.
//! - [`shared`]: handles to slots.
//! - [`link`]: the cells that a data structure embeds.

pub mod arena;
pub mod bag;
pub mod global;
pub mod guard;
pub mod link;
pub mod local;
pub mod retry;
pub mod shared;
pub mod stack;
pub mod word;

pub use crate::bag::{Bag, ENTRIES_PER_BAG};
pub use crate::global::{Global, GlobalView, SlotView, Ver, NOT_RETIRED};
pub use crate::guard::Guard;
pub use crate::link::{Entry, ImmAtomic, LinkView, VerAtomic};
pub use crate::local::{Local, LocalView, INIT_BAGS_PER_LOCAL};
pub use crate::retry::Retry;
pub use crate::shared::{Shared, SharedView};
pub use crate::stack::{BagStack, Observation, StackView};
pub use crate::word::{
    compare_exchange, compose_u128, decompose_ptr, decompose_u128, low_bits, ptr_with_tag,
};
