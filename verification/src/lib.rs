//! Scheduling core of a teaching operating-system kernel.
//!
//! The crate models two nested granularities of control flow:
//! kernel-level processes (preemptible, address-space-owning) and
//! user-level cooperative coroutines layered inside a process.
//! Process bookkeeping (control blocks, the ready queue, fork / exec /
//! exit / wait) lives in [`task`] and [`process`]; the cooperative
//! coroutine layer lives in [`coroutine`]; saved execution state is
//! modelled in [`context`]; [`user`] holds the thin user-level wrappers
//! over the syscall surface.

use vstd::prelude::*;

pub mod context;
pub mod coroutine;
pub mod process;
pub mod task;
pub mod user;

verus! {

/// True when no identifier occurs twice in the sequence.  Both ready
/// queues and the blocked set hold each control block at most once.
pub open spec fn distinct(ids: Seq<usize>) -> bool {
    forall|i: int, j: int| 0 <= i < j < ids.len() ==> ids[i] != ids[j]
}

} // verus!
