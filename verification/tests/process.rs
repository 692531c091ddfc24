use sched_core::process::{
    sys_exec, sys_exit, sys_fork, sys_get_time, sys_getpid, sys_waitpid, sys_yield,
};
use sched_core::task::{Kernel, HaltKind, TaskStatus, IDLE_PID};

fn booted() -> Kernel {
    let mut k = Kernel::new(b"initproc".to_vec());
    k.add_initproc();
    let ran = k.run_next_task();
    assert!(ran);
    k
}

fn pcb(k: &Kernel, p: usize) -> &sched_core::task::TaskControlBlock {
    k.procs[p].as_ref().unwrap()
}

#[test]
fn boot_runs_the_root_process() {
    let k = booted();
    assert_eq!(k.current, Some(IDLE_PID));
    assert_eq!(pcb(&k, 0).status, TaskStatus::Running);
    assert_eq!(sys_getpid(&k), 0);
}

#[test]
fn yield_with_empty_queue_reschedules_the_caller() {
    let mut k = booted();
    assert_eq!(sys_yield(&mut k), 0);
    assert_eq!(k.current, Some(0));
    assert_eq!(pcb(&k, 0).status, TaskStatus::Running);
}

#[test]
fn get_time_reads_the_clock() {
    let mut k = booted();
    k.now_ms = 42;
    assert_eq!(sys_get_time(&k), 42);
}

#[test]
fn fork_gives_parent_the_child_id_and_child_a_zero_slot() {
    let mut k = booted();
    let r = sys_fork(&mut k);
    assert_eq!(r, 1);
    assert!(r > 0);
    assert_ne!(r, sys_getpid(&k));
    let child = pcb(&k, 1);
    assert_eq!(child.ret_val, 0);
    assert_eq!(child.pid, 1);
    assert_eq!(child.status, TaskStatus::Ready);
    assert_eq!(child.parent, Some(0));
    assert_eq!(child.image, b"initproc".to_vec());
    assert_eq!(pcb(&k, 0).children, vec![1]);
    assert!(k.ready_queue.contains(&1));
}

#[test]
fn waitpid_right_after_fork_would_block() {
    let mut k = booted();
    let child = sys_fork(&mut k) as usize;
    let mut code: i32 = 123;
    assert_eq!(sys_waitpid(&mut k, child as isize, &mut code), -2);
    assert_eq!(sys_waitpid(&mut k, -1, &mut code), -2);
    assert_eq!(code, 123);
    assert_eq!(pcb(&k, 0).children, vec![child]);
}

#[test]
fn waitpid_on_a_nonexistent_pid_returns_not_found() {
    let mut k = booted();
    sys_fork(&mut k);
    let mut code: i32 = 7;
    assert_eq!(sys_waitpid(&mut k, 42, &mut code), -1);
    assert_eq!(code, 7);
    assert_eq!(pcb(&k, 0).children, vec![1]);
}

#[test]
fn polling_wait_reaps_the_child_once_it_exits() {
    let mut k = booted();
    let child = sys_fork(&mut k);
    assert_eq!(child, 1);
    let mut code: i32 = 0;
    // not exited yet: WouldBlock, so poll again after yielding
    assert_eq!(sys_waitpid(&mut k, -1, &mut code), -2);
    sys_yield(&mut k);
    // the child runs now and exits with code 7
    assert_eq!(k.current, Some(1));
    sys_exit(&mut k, 7);
    // the parent runs again and reaps
    assert_eq!(k.current, Some(0));
    let r = sys_waitpid(&mut k, -1, &mut code);
    assert_eq!(r, 1);
    assert_eq!(code, 7);
    assert!(pcb(&k, 0).children.is_empty());
    assert!(k.procs[1].is_none());
    assert!(k.recycled_pids.contains(&1));
    // a second identical call finds no child at all
    assert_eq!(sys_waitpid(&mut k, -1, &mut code), -1);
}

#[test]
fn reaped_identifiers_are_reused() {
    let mut k = booted();
    assert_eq!(sys_fork(&mut k), 1);
    sys_yield(&mut k);
    sys_exit(&mut k, 0);
    let mut code: i32 = 0;
    assert_eq!(sys_waitpid(&mut k, 1, &mut code), 1);
    // the released identifier is handed out again
    assert_eq!(sys_fork(&mut k), 1);
    assert_eq!(pcb(&k, 1).status, TaskStatus::Ready);
}

#[test]
fn exit_reparents_grandchildren_to_the_root() {
    let mut k = booted();
    let a = sys_fork(&mut k);
    assert_eq!(a, 1);
    sys_yield(&mut k);
    assert_eq!(k.current, Some(1));
    let b = sys_fork(&mut k);
    assert_eq!(b, 2);
    sys_exit(&mut k, 3);
    // the grandchild now belongs to the root, after the root's own child
    assert_eq!(pcb(&k, 0).children, vec![1, 2]);
    assert_eq!(pcb(&k, 2).parent, Some(0));
    assert!(pcb(&k, 1).children.is_empty());
    assert_eq!(pcb(&k, 1).status, TaskStatus::Zombie);
    assert_eq!(pcb(&k, 1).exit_code, 3);
    // the root reaps the zombie child and keeps the grandchild
    assert_eq!(k.current, Some(0));
    let mut code: i32 = 0;
    assert_eq!(sys_waitpid(&mut k, -1, &mut code), 1);
    assert_eq!(code, 3);
    assert_eq!(pcb(&k, 0).children, vec![2]);
    // the grandchild has not exited: WouldBlock
    assert_eq!(sys_waitpid(&mut k, -1, &mut code), -2);
}

#[test]
fn exec_replaces_the_image_only_when_the_store_has_it() {
    let mut k = booted();
    k.apps.push(b"shell".to_vec());
    assert_eq!(sys_exec(&mut k, &b"missing".to_vec()), -1);
    assert_eq!(pcb(&k, 0).image, b"initproc".to_vec());
    assert_eq!(sys_exec(&mut k, &b"shell".to_vec()), 0);
    assert_eq!(pcb(&k, 0).image, b"shell".to_vec());
    assert_eq!(pcb(&k, 0).pid, 0);
}

#[test]
fn root_exit_with_zero_halts_successfully() {
    let mut k = booted();
    sys_exit(&mut k, 0);
    assert_eq!(k.halted, Some(HaltKind::Success));
    // nothing was scheduled or changed by the halt
    assert_eq!(k.current, Some(0));
    assert_eq!(k.ready_queue.len(), 0);
}

#[test]
fn root_exit_with_nonzero_code_halts_with_failure() {
    let mut k = booted();
    sys_exit(&mut k, 9);
    assert_eq!(k.halted, Some(HaltKind::Failure));
}
