//! Scheduling core of a small real-time kernel: a per-CPU dispatch state
//! machine (`processor`) and two pluggable scheduling policies, a
//! time-sliced round-robin policy (`scheduler`) and a time-triggered
//! policy with periodic reservations (`tt_scheduler`).

use vstd::prelude::*;

pub mod processor;
pub mod scheduler;
pub mod tt_scheduler;

verus! {

/// Dense, non-negative task identifier, assigned by the caller.
pub type Tid = usize;

} // verus!
