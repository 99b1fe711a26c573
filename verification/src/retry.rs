//! The signal that an optimistic step lost a race.

use vstd::prelude::*;

verus! {

/// The operation ran into a concurrent change and had no effect that the
/// caller may build on: the caller starts its logical operation over.
#[derive(Clone, Copy, Debug, PartialEq, Eq, Structural)]
pub struct Retry;

} // verus!
