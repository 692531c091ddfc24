use sched_core::coroutine::{CoroutineManager, CoroutineStatus};
use sched_core::process::{
    sys_coroutine_create, sys_coroutine_exit, sys_coroutine_resume, sys_coroutine_yield,
};
use sched_core::task::{coroutine_block, Kernel};
use sched_core::user;

fn booted() -> Kernel {
    let mut k = Kernel::new(b"initproc".to_vec());
    k.add_initproc();
    assert!(k.run_next_task());
    k
}

fn mgr(k: &Kernel) -> &CoroutineManager {
    &k.procs[0].as_ref().unwrap().coroutines
}

fn mgr_mut(k: &mut Kernel) -> &mut CoroutineManager {
    &mut k.procs[0].as_mut().unwrap().coroutines
}

fn status(k: &Kernel, cid: usize) -> CoroutineStatus {
    mgr(k).coroutines[cid - 1].inner.status
}

#[test]
fn create_allocates_monotonic_ids_and_disjoint_stacks() {
    let mut k = booted();
    let a = sys_coroutine_create(&mut k, 0x100, 11, 4096);
    let b = sys_coroutine_create(&mut k, 0x200, 22, 8192);
    let c = sys_coroutine_create(&mut k, 0x300, 33, 4096);
    assert_eq!((a, b, c), (1, 2, 3));
    let m = mgr(&k);
    let base1 = m.coroutines[0].inner.stack_base;
    let base2 = m.coroutines[1].inner.stack_base;
    let base3 = m.coroutines[2].inner.stack_base;
    assert_eq!(base2, base1 + 4096);
    assert_eq!(base3, base2 + 8192);
    assert_eq!(m.coroutines[0].inner.entry, 0x100);
    assert_eq!(m.coroutines[0].inner.arg, 11);
    assert_eq!(status(&k, 1), CoroutineStatus::Ready);
}

#[test]
fn repeated_yields_cycle_in_creation_order() {
    let mut k = booted();
    for f in [0x100usize, 0x200, 0x300] {
        sys_coroutine_create(&mut k, f, 0, 4096);
    }
    // the very first yield seats the front coroutine; a ready
    // coroutine existed, so the call succeeds even though there was
    // no outgoing context to hand the switch primitive
    assert_eq!(sys_coroutine_yield(&mut k), 0);
    assert_eq!(mgr(&k).current_coroutine, Some(1));
    // from then on the FIFO rotates: B, C, A, B, C, ...
    for expected in [2usize, 3, 1, 2, 3, 1, 2] {
        assert_eq!(sys_coroutine_yield(&mut k), 0);
        assert_eq!(mgr(&k).current_coroutine, Some(expected));
    }
}

#[test]
fn yield_with_no_coroutines_fails() {
    let mut k = booted();
    assert_eq!(sys_coroutine_yield(&mut k), -1);
}

#[test]
fn blocked_coroutine_is_skipped_until_resumed() {
    let mut k = booted();
    for f in [0x100usize, 0x200, 0x300] {
        sys_coroutine_create(&mut k, f, 0, 4096);
    }
    sys_coroutine_yield(&mut k); // seats coroutine 1
    // block-then-yield: two-step protocol
    coroutine_block(mgr_mut(&mut k));
    assert_eq!(status(&k, 1), CoroutineStatus::Blocked);
    assert_eq!(mgr(&k).current_coroutine, None);
    assert_eq!(sys_coroutine_yield(&mut k), 0); // seats 2
    assert_eq!(mgr(&k).current_coroutine, Some(2));
    // 1 stays blocked while 2 and 3 alternate
    assert_eq!(sys_coroutine_yield(&mut k), 0);
    assert_eq!(mgr(&k).current_coroutine, Some(3));
    assert_eq!(sys_coroutine_yield(&mut k), 0);
    assert_eq!(mgr(&k).current_coroutine, Some(2));
    // resume makes 1 eligible again, at the FIFO's tail
    assert_eq!(sys_coroutine_resume(&mut k, 1), 0);
    assert_eq!(status(&k, 1), CoroutineStatus::Ready);
    // 3 was ahead; one more yield reaches 1
    assert_eq!(mgr(&k).current_coroutine, Some(3));
    assert_eq!(sys_coroutine_yield(&mut k), 0);
    assert_eq!(mgr(&k).current_coroutine, Some(1));
}

#[test]
fn resume_is_a_failure_for_running_unknown_or_exited_targets() {
    let mut k = booted();
    sys_coroutine_create(&mut k, 0x100, 0, 4096);
    sys_coroutine_create(&mut k, 0x200, 0, 4096);
    sys_coroutine_yield(&mut k); // seats 1
    // the running coroutine needs no resume
    assert_eq!(sys_coroutine_resume(&mut k, 1), -1);
    // an unknown identifier is ineligible
    assert_eq!(sys_coroutine_resume(&mut k, 99), -1);
    // an already-Ready target is a failure and a no-op
    assert_eq!(sys_coroutine_resume(&mut k, 2), -1);
    assert_eq!(mgr(&k).current_coroutine, Some(1));
    assert_eq!(status(&k, 2), CoroutineStatus::Ready);
    // an Exited coroutine cannot be resumed
    assert_eq!(sys_coroutine_exit(&mut k, 0), 0);
    assert_eq!(status(&k, 1), CoroutineStatus::Exited);
    assert_eq!(mgr(&k).current_coroutine, Some(2));
    assert_eq!(sys_coroutine_resume(&mut k, 1), -1);
}

#[test]
fn coroutine_exit_propagates_its_code_when_another_runs() {
    let mut k = booted();
    sys_coroutine_create(&mut k, 0x100, 0, 4096);
    sys_coroutine_create(&mut k, 0x200, 0, 4096);
    sys_coroutine_yield(&mut k); // seats 1
    // another coroutine is ready, so the code propagates
    assert_eq!(sys_coroutine_exit(&mut k, 5), 5);
    assert_eq!(status(&k, 1), CoroutineStatus::Exited);
    assert_eq!(mgr(&k).current_coroutine, Some(2));
    // the registry entry persists after exit
    assert_eq!(mgr(&k).coroutines.len(), 2);
    // nothing else is left runnable
    assert_eq!(sys_coroutine_exit(&mut k, 5), -1);
    assert_eq!(status(&k, 2), CoroutineStatus::Exited);
}

#[test]
fn user_wrappers_use_the_default_stack_size() {
    let mut k = booted();
    let cid = user::coroutine_create(&mut k, 0x400, 9);
    assert_eq!(cid, 1);
    assert_eq!(mgr(&k).coroutines[0].inner.stack_size, user::DEFAULT_STACK_SIZE);
    assert_eq!(mgr(&k).coroutines[0].inner.arg, 9);
    assert_eq!(user::coroutine_yield(&mut k), 0); // seats the first coroutine
    assert_eq!(mgr(&k).current_coroutine, Some(1));
    let second = user::coroutine_create(&mut k, 0x500, 10);
    // an already-Ready coroutine cannot be resumed: failure, no-op
    assert_eq!(user::coroutine_resume(&mut k, second), -1);
    assert_eq!(mgr(&k).current_coroutine, Some(1));
    assert_eq!(user::coroutine_yield(&mut k), 0);
    assert_eq!(mgr(&k).current_coroutine, Some(second));
    assert_eq!(user::coroutine_exit(&mut k, 4), 4);
    assert_eq!(mgr(&k).current_coroutine, Some(1));
}

#[test]
fn resume_of_a_blocked_target_succeeds_with_nothing_current() {
    let mut k = booted();
    sys_coroutine_create(&mut k, 0x100, 0, 4096);
    assert_eq!(sys_coroutine_yield(&mut k), 0); // seats 1
    coroutine_block(mgr_mut(&mut k));
    assert_eq!(mgr(&k).current_coroutine, None);
    // made runnable: success, and the scheduling step seats it again
    assert_eq!(sys_coroutine_resume(&mut k, 1), 0);
    assert_eq!(mgr(&k).current_coroutine, Some(1));
    assert_eq!(status(&k, 1), CoroutineStatus::Running);
}
