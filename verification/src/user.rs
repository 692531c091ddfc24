//! User-level coroutine wrappers over the syscall surface.
//!
//! User code reaches the coroutine operations through these thin
//! stubs, which fix the default stack size and hand plain values to
//! the syscall layer.  In the machine each stub traps into the kernel;
//! here the kernel state is passed explicitly.

use vstd::prelude::*;
use crate::task::Kernel;
use crate::coroutine::CoroutineManager;
use crate::coroutine::MAX_COROUTINES;
use crate::process::cur_mgr;
use crate::process::mgr_updated;
use crate::process::sys_coroutine_create;
use crate::process::sys_coroutine_yield;
use crate::process::sys_coroutine_resume;
use crate::process::sys_coroutine_exit;

verus! {

/// A coroutine identifier as user code sees it.
pub type CoroutineId = usize;

/// Stack size handed to a newly created coroutine: 8 KiB.
pub const DEFAULT_STACK_SIZE: usize = 8192;

/// Creates a coroutine running `func(arg)` on a default-sized stack
/// and returns its identifier.
pub fn coroutine_create(k: &mut Kernel, func: usize, arg: usize) -> (cid: CoroutineId)
    requires
        old(k).wf(),
        old(k).current is Some,
        old(k).halted is None,
        cur_mgr(*old(k)).coroutines@.len() < MAX_COROUTINES,
        cur_mgr(*old(k)).next_stack_base + DEFAULT_STACK_SIZE <= usize::MAX,
    ensures
        final(k).wf(),
        mgr_updated(*old(k), *final(k)),
        cid == cur_mgr(*old(k)).coroutines@.len() + 1,
        CoroutineManager::create_step(
            cur_mgr(*old(k)),
            cur_mgr(*final(k)),
            func,
            arg,
            DEFAULT_STACK_SIZE,
            cid,
        ),
{
    let r = sys_coroutine_create(k, func, arg, DEFAULT_STACK_SIZE);
    r as usize
}

/// Gives up the processor to the next ready coroutine.  Returns 0
/// when a ready coroutine was there to run, −1 exactly when none was.
pub fn coroutine_yield(k: &mut Kernel) -> (r: isize)
    requires
        old(k).wf(),
        old(k).current is Some,
        old(k).halted is None,
    ensures
        final(k).wf(),
        mgr_updated(*old(k), *final(k)),
        r == 0 || r == -1,
        (r == 0) == (cur_mgr(*old(k)).ready_queue@.len() > 0),
        CoroutineManager::yield_step(
            cur_mgr(*old(k)),
            cur_mgr(*final(k)),
            if cur_mgr(*old(k)).ready_queue@.len() > 0 && cur_mgr(
                *old(k),
            ).current_coroutine is Some {
                Some(
                    (
                        cur_mgr(*old(k)).current_coroutine->0,
                        cur_mgr(*old(k)).ready_queue@[0],
                    ),
                )
            } else {
                None
            },
        ),
{
    sys_coroutine_yield(k)
}

/// Makes the named Blocked coroutine runnable again and yields to the
/// next ready one.  Returns 0 when the target was made runnable, −1
/// (a no-op) for a Ready, Running, Exited or unknown target.
pub fn coroutine_resume(k: &mut Kernel, cid: CoroutineId) -> (r: isize)
    requires
        old(k).wf(),
        old(k).current is Some,
        old(k).halted is None,
    ensures
        final(k).wf(),
        mgr_updated(*old(k), *final(k)),
        r == 0 || r == -1,
        CoroutineManager::resume_then_yield(cur_mgr(*old(k)), cur_mgr(*final(k)), cid, r == 0),
{
    sys_coroutine_resume(k, cid)
}

/// Exits the running coroutine.  In the machine this call does not
/// return to the caller; its result propagates `exit_code` when
/// another coroutine took over, −1 when nothing was left to run.
pub fn coroutine_exit(k: &mut Kernel, exit_code: i32) -> (r: isize)
    requires
        old(k).wf(),
        old(k).current is Some,
        old(k).halted is None,
    ensures
        final(k).wf(),
        mgr_updated(*old(k), *final(k)),
        cur_mgr(*old(k)).ready_queue@.len() > 0 ==> r == exit_code as isize,
        cur_mgr(*old(k)).ready_queue@.len() == 0 ==> r == -1,
        exists|mid: CoroutineManager|
            {
                &&& #[trigger] CoroutineManager::exit_step(cur_mgr(*old(k)), mid)
                &&& CoroutineManager::yield_step(mid, cur_mgr(*final(k)), None)
            },
{
    sys_coroutine_exit(k, exit_code)
}

} // verus!
