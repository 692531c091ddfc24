//! Saved execution state of a suspended flow of control.
//!
//! Both processes and coroutines save and restore the same record shape:
//! a return address (the resumption point), a stack pointer, and the
//! callee-saved registers that the calling convention requires to survive
//! a call.  The physical register swap itself is a platform primitive
//! below this model; here a context is plain data that the scheduler
//! stores in a control block while the flow is not running.

use vstd::prelude::*;

verus! {

/// Number of callee-saved registers a context preserves.
pub const SAVED_REG_COUNT: usize = 12;

/// Distinguished value standing for the address of the platform's
/// trap-return stub: the fixed resumption point through which a freshly
/// created flow first enters user code.  The stub itself is out of scope;
/// the scheduler only ever stores and compares this address.
pub const TRAP_RETURN_ENTRY: usize = 1;

/// A saved register snapshot: everything the switch primitive stores for
/// a suspended flow and reloads when control transfers back into it.
/// Meaningful only while the owning flow is not running.
#[derive(Clone, Copy)]
pub struct TaskContext {
    /// Return address: the point where the flow resumes.
    pub ra: usize,
    /// Stack pointer of the suspended flow.
    pub sp: usize,
    /// Callee-saved registers.
    pub s: [usize; 12],
}

impl TaskContext {
    /// True when every callee-saved register slot is zero.
    pub open spec fn saved_regs_zero(self) -> bool {
        forall|i: int| 0 <= i < 12 ==> self.s[i] == 0
    }

    /// An all-zero context: the placeholder stored where no meaningful
    /// resumption state exists yet.
    pub fn zero_init() -> (r: Self)
        ensures
            r.ra == 0,
            r.sp == 0,
            r.saved_regs_zero(),
    {
        Self { ra: 0, sp: 0, s: [0; 12] }
    }

    /// A context whose resumption point is the trap-return stub, running
    /// on the given kernel stack: the initial state of a newly created
    /// flow, which first enters user code through that stub.
    pub fn goto_trap_return(kstack_ptr: usize) -> (r: Self)
        ensures
            r.ra == TRAP_RETURN_ENTRY,
            r.sp == kstack_ptr,
            r.saved_regs_zero(),
    {
        Self { ra: TRAP_RETURN_ENTRY, sp: kstack_ptr, s: [0; 12] }
    }
}

} // verus!
