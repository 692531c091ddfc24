//! The syscall surface: the process and coroutine lifecycle
//! operations built on the task and coroutine managers.
//!
//! Every syscall takes the scheduler state explicitly and signals all
//! non-fatal conditions through sentinel negative return values:
//! −1 for NotFound (a missing exec target, a wait with no matching
//! child, an ineligible resume target), −2 for WouldBlock (a matching
//! child that has not exited yet — the caller should retry, typically
//! after yielding).  The one fatal condition — a reaped child still
//! owned elsewhere, which would mean scheduler bookkeeping went wrong
//! — cannot arise: the proved ownership invariant rules it out, with
//! no need for a run-time reference-count check.
//!
//! The address-space collaborators are outside this model: a path or
//! output location arrives here already translated into plain values.

use vstd::prelude::*;
use crate::task::Kernel;
use crate::task::TaskControlBlock;
use crate::task::TaskStatus;
use crate::task::MAX_PROCS;
use crate::task::exit_transition;
use crate::task::suspend_transition;
use crate::task::exit_current_and_run_next;
use crate::task::suspend_current_and_run_next;
use crate::task::lemma_pcb_update_wf;
use crate::coroutine::CoroutineManager;
use crate::coroutine::COROUTINE_STACK_BASE;
use crate::distinct;

verus! {

/// Largest clock reading the time syscall reports; keeps the reading
/// representable as a non-negative `isize`.
pub const MAX_TIME_MS: usize = 0x7fff_ffff;

/// Exits the calling process with the given code and hands the
/// processor to the scheduler; in the machine this call never returns
/// to the caller.  The root/idle process exiting instead halts the
/// platform, successfully exactly for code zero.
pub fn sys_exit(k: &mut Kernel, exit_code: i32)
    requires
        old(k).wf(),
        old(k).current is Some,
        old(k).halted is None,
    ensures
        final(k).wf(),
        exit_transition(*old(k), *final(k), exit_code),
{
    exit_current_and_run_next(k, exit_code);
}

/// Voluntarily yields the processor: the caller moves to the ready
/// FIFO's tail and the FIFO's front runs.  Always returns 0.
pub fn sys_yield(k: &mut Kernel) -> (r: isize)
    requires
        old(k).wf(),
        old(k).current is Some,
        old(k).halted is None,
    ensures
        final(k).wf(),
        suspend_transition(*old(k), *final(k)),
        r == 0,
{
    suspend_current_and_run_next(k);
    0
}

/// Reads the wall-clock millisecond collaborator.
pub fn sys_get_time(k: &Kernel) -> (r: isize)
    requires
        k.now_ms <= MAX_TIME_MS,
    ensures
        r as int == k.now_ms as int,
{
    k.now_ms as isize
}

/// Returns the calling process's identifier.
pub fn sys_getpid(k: &Kernel) -> (r: isize)
    requires
        k.wf(),
        k.current is Some,
    ensures
        r as int == k.current->0 as int,
{
    match k.current {
        Some(p) => p as isize,
        None => {
            proof {
                assert(false);
            }
            0
        },
    }
}

/// The application store holds an image with this name.
pub open spec fn has_app(k: Kernel, path: Seq<u8>) -> bool {
    exists|i: int| 0 <= i < k.apps@.len() && k.apps@[i]@ == path
}

/// What exec does: when the store holds the named image, the calling
/// process's executable image is replaced in place — its identifier
/// and everything else unchanged — and 0 is returned; when it does
/// not, −1 is returned and nothing changes, the caller keeps running
/// its current image.
pub open spec fn exec_transition(pre: Kernel, post: Kernel, path: Seq<u8>, r: isize) -> bool {
    let p = pre.current->0 as int;
    if has_app(pre, path) {
        &&& r == 0
        &&& post.procs@.len() == pre.procs@.len()
        &&& forall|q: int|
            0 <= q < pre.procs@.len() && q != p ==> post.procs@[q] == pre.procs@[q]
        &&& post.pcb_of(p).image@ == path
        &&& post.pcb_of(p).pid == pre.pcb_of(p).pid
        &&& post.pcb_of(p).status == pre.pcb_of(p).status
        &&& post.pcb_of(p).task_cx == pre.pcb_of(p).task_cx
        &&& post.pcb_of(p).exit_code == pre.pcb_of(p).exit_code
        &&& post.pcb_of(p).parent == pre.pcb_of(p).parent
        &&& post.pcb_of(p).children == pre.pcb_of(p).children
        &&& post.pcb_of(p).ret_val == pre.pcb_of(p).ret_val
        &&& post.pcb_of(p).coroutines == pre.pcb_of(p).coroutines
        &&& post.ready_queue@ == pre.ready_queue@
        &&& post.current == pre.current
        &&& Kernel::same_ambient(pre, post)
    } else {
        &&& r == -1
        &&& Kernel::unchanged(pre, post)
    }
}

/// Replaces the calling process's executable image with the named one
/// from the application store.  Returns 0 on success; returns −1,
/// leaving the caller's image untouched, when no image of that name
/// exists.
pub fn sys_exec(k: &mut Kernel, path: &Vec<u8>) -> (r: isize)
    requires
        old(k).wf(),
        old(k).current is Some,
        old(k).halted is None,
    ensures
        final(k).wf(),
        exec_transition(*old(k), *final(k), path@, r),
{
    let ghost pre = *old(k);
    let p = match k.current {
        Some(p) => p,
        None => {
            proof {
                assert(false);
            }
            0
        },
    };
    proof {
        assert(pre.live(p as int));
    }
    // look the name up in the application store
    let mut found: bool = false;
    let mut i: usize = 0;
    while i < k.apps.len()
        invariant
            i <= k.apps@.len(),
            *k == pre,
            found == exists|j: int| 0 <= j < i && pre.apps@[j]@ == path@,
        decreases k.apps@.len() - i,
    {
        if bytes_eq(&k.apps[i], path) {
            found = true;
            proof {
                assert(pre.apps@[i as int]@ == path@);
            }
        }
        i = i + 1;
    }
    if found {
        // replace the image in place; the identifier is unchanged
        let image = copy_bytes(path);
        let slot = &mut k.procs[p];
        match slot {
            Some(pcb) => {
                pcb.image = image;
            },
            None => {
                proof {
                    assert(false);
                }
            },
        }
        proof {
            let post = *k;
            assert(post.procs@ =~= pre.procs@.update(p as int, post.procs@[p as int]));
            let newpcb = post.procs@[p as int]->0;
            assert(newpcb.image@ == path@);
            assert(newpcb.pid == pre.pcb_of(p as int).pid);
            assert(newpcb.children == pre.pcb_of(p as int).children);
            lemma_pcb_update_wf(pre, post, p as int, newpcb);
            assert(has_app(pre, path@));
        }
        0
    } else {
        -1
    }
}

/// What fork does: a new process appears under a freshly allocated
/// identifier — a recycled one if any is free, else the next slab
/// position — as a Ready clone of the caller: same saved context and
/// image, its persisted return-value slot forced to 0 so it observes a
/// zero result from fork once scheduled, a fresh coroutine scheduler,
/// no children.  The caller acquires the owning link; the child is
/// enqueued at the ready FIFO's tail.  No control transfers.
pub open spec fn fork_transition(pre: Kernel, post: Kernel, child: usize) -> bool {
    let p = pre.current->0 as int;
    &&& child as int == (if pre.recycled_pids@.len() > 0 {
        pre.recycled_pids@.last() as int
    } else {
        pre.procs@.len() as int
    })
    &&& if pre.recycled_pids@.len() > 0 {
        &&& post.procs@.len() == pre.procs@.len()
        &&& post.recycled_pids@ == pre.recycled_pids@.drop_last()
    } else {
        &&& post.procs@.len() == pre.procs@.len() + 1
        &&& post.recycled_pids@ == pre.recycled_pids@
    }
    &&& post.live(child as int)
    &&& post.live(p)
    &&& post.pcb_of(child as int).pid == child
    &&& post.pcb_of(child as int).status is Ready
    &&& post.pcb_of(child as int).task_cx == pre.pcb_of(p).task_cx
    &&& post.pcb_of(child as int).exit_code == 0
    &&& post.pcb_of(child as int).parent == Some(pre.current->0)
    &&& post.pcb_of(child as int).children@.len() == 0
    &&& post.pcb_of(child as int).ret_val == 0
    &&& post.pcb_of(child as int).image@ == pre.pcb_of(p).image@
    &&& post.pcb_of(child as int).coroutines.coroutines@.len() == 0
    &&& post.pcb_of(child as int).coroutines.current_coroutine is None
    &&& post.pcb_of(child as int).coroutines.ready_queue@.len() == 0
    &&& post.pcb_of(child as int).coroutines.blocked_queue@.len() == 0
    &&& post.pcb_of(child as int).coroutines.next_stack_base == COROUTINE_STACK_BASE
    &&& post.pcb_of(p).children@ == pre.pcb_of(p).children@.push(child)
    &&& post.pcb_of(p).pid == pre.pcb_of(p).pid
    &&& post.pcb_of(p).status == pre.pcb_of(p).status
    &&& post.pcb_of(p).task_cx == pre.pcb_of(p).task_cx
    &&& post.pcb_of(p).exit_code == pre.pcb_of(p).exit_code
    &&& post.pcb_of(p).parent == pre.pcb_of(p).parent
    &&& post.pcb_of(p).ret_val == pre.pcb_of(p).ret_val
    &&& post.pcb_of(p).image == pre.pcb_of(p).image
    &&& post.pcb_of(p).coroutines == pre.pcb_of(p).coroutines
    &&& forall|q: int|
        #![trigger post.procs@[q]]
        0 <= q < pre.procs@.len() && q != p && q != child as int ==> post.procs@[q]
            == pre.procs@[q]
    &&& post.ready_queue@ == pre.ready_queue@.push(child)
    &&& post.current == pre.current
    &&& post.apps@ == pre.apps@
    &&& post.halted == pre.halted
    &&& post.now_ms == pre.now_ms
}

/// Forks the calling process: clones its state into a new Ready child
/// with a fresh identifier, forces the child's persisted return-value
/// slot to 0, hands the caller the owning link and enqueues the child.
/// Returns the child's identifier — so the parent observes the child's
/// identifier while the child, once scheduled, observes 0.
pub fn sys_fork(k: &mut Kernel) -> (r: isize)
    requires
        old(k).wf(),
        old(k).current is Some,
        old(k).halted is None,
        old(k).procs@.len() < MAX_PROCS,
    ensures
        final(k).wf(),
        fork_transition(*old(k), *final(k), r as usize),
        0 < r < MAX_PROCS,
        r as int != old(k).current->0 as int,
        final(k).pcb_of(r as int).ret_val == 0,
{
    let ghost pre = *old(k);
    let p = match k.current {
        Some(p) => p,
        None => {
            proof {
                assert(false);
            }
            0
        },
    };
    proof {
        assert(pre.live(p as int));
    }
    // clone the caller's state
    let (parent_cx, image) = match &k.procs[p] {
        Some(pcb) => (pcb.task_cx, copy_bytes(&pcb.image)),
        None => {
            proof {
                assert(false);
            }
            (crate::context::TaskContext::zero_init(), Vec::new())
        },
    };
    // allocate an identifier: reuse a released one, else the next slot
    let child = match k.recycled_pids.pop() {
        Some(c) => c,
        None => k.procs.len(),
    };
    proof {
        if pre.recycled_pids@.len() > 0 {
            assert(child == pre.recycled_pids@.last());
            assert(!pre.live(child as int));
            assert(child != p);
            assert(child != 0) by {
                assert(pre.live(0));
            }
        } else {
            assert(child == pre.procs@.len());
        }
    }
    let pcb = TaskControlBlock {
        pid: child,
        status: TaskStatus::Ready,
        task_cx: parent_cx,
        exit_code: 0,
        parent: Some(p),
        children: Vec::new(),
        ret_val: 0,
        image,
        coroutines: CoroutineManager::new(),
    };
    if child < k.procs.len() {
        let slot = &mut k.procs[child];
        *slot = Some(pcb);
    } else {
        k.procs.push(Some(pcb));
    }
    let ghost mid = *k;
    // the caller acquires the owning link to the child
    let pslot = &mut k.procs[p];
    match pslot {
        Some(parent_pcb) => {
            parent_pcb.children.push(child);
        },
        None => {
            proof {
                assert(mid.procs@[p as int] is Some);
                assert(false);
            }
        },
    }
    // make the child schedulable; control stays with the caller
    enqueue_ready(k, child);
    proof {
        let post = *k;
        lemma_fork_wf(pre, post, p as int, child);
    }
    child as isize
}

/// A child matches the wait target when the target is the wildcard −1
/// or names the child's identifier.
pub open spec fn wait_matches(c: usize, target: isize) -> bool {
    target == -1 || (target >= 0 && c as int == target as int)
}

/// What waiting does, relating the state before and after together
/// with the value behind the output location and the returned value.
///
/// With no matching child at all: −1, nothing changes (NotFound).
/// With matching children but none of them a Zombie yet: −2, nothing
/// changes (WouldBlock — retry, typically after yielding).  Otherwise
/// the first matching Zombie the scan encounters is reaped: its
/// identifier is returned and released for reuse, its exit code is
/// written to the output location, its owning link leaves the caller's
/// children — the proved ownership invariant guarantees no other owner
/// remains — and its slot empties.
pub open spec fn waitpid_transition(
    pre: Kernel,
    post: Kernel,
    target: isize,
    code0: i32,
    code1: i32,
    r: isize,
) -> bool {
    let p = pre.current->0 as int;
    let kids = pre.pcb_of(p).children@;
    if forall|j: int| 0 <= j < kids.len() ==> !wait_matches(#[trigger] kids[j], target) {
        &&& r == -1
        &&& Kernel::unchanged(pre, post)
        &&& code1 == code0
    } else if forall|j: int|
        0 <= j < kids.len() && wait_matches(#[trigger] kids[j], target) ==> !(pre.pcb_of(
            kids[j] as int,
        ).status is Zombie) {
        &&& r == -2
        &&& Kernel::unchanged(pre, post)
        &&& code1 == code0
    } else {
        exists|j: int|
            {
                let c = kids[j] as int;
                &&& 0 <= j < kids.len()
                &&& wait_matches(#[trigger] kids[j], target)
                &&& pre.pcb_of(c).status is Zombie
                &&& forall|t: int|
                    0 <= t < j ==> !(wait_matches(#[trigger] kids[t], target) && pre.pcb_of(
                        kids[t] as int,
                    ).status is Zombie)
                &&& r as int == c
                &&& code1 == pre.pcb_of(c).exit_code
                &&& post.procs@.len() == pre.procs@.len()
                &&& forall|q: int|
                    #![trigger post.procs@[q]]
                    0 <= q < pre.procs@.len() && q != p && q != c ==> post.procs@[q]
                        == pre.procs@[q]
                &&& post.procs@[c] is None
                &&& post.live(p)
                &&& post.pcb_of(p).children@ == kids.remove(j)
                &&& post.pcb_of(p).pid == pre.pcb_of(p).pid
                &&& post.pcb_of(p).status == pre.pcb_of(p).status
                &&& post.pcb_of(p).task_cx == pre.pcb_of(p).task_cx
                &&& post.pcb_of(p).exit_code == pre.pcb_of(p).exit_code
                &&& post.pcb_of(p).parent == pre.pcb_of(p).parent
                &&& post.pcb_of(p).ret_val == pre.pcb_of(p).ret_val
                &&& post.pcb_of(p).image == pre.pcb_of(p).image
                &&& post.pcb_of(p).coroutines == pre.pcb_of(p).coroutines
                &&& post.recycled_pids@ == pre.recycled_pids@.push(kids[j])
                &&& post.ready_queue@ == pre.ready_queue@
                &&& post.current == pre.current
                &&& post.apps@ == pre.apps@
                &&& post.halted == pre.halted
                &&& post.now_ms == pre.now_ms
            }
    }
}

/// Waits for a child process.  The target is a child identifier, or −1
/// to match any child.  Returns −1 when no child matches at all, −2
/// when a matching child exists but none has exited yet, and otherwise
/// reaps a matching Zombie child: removes it from `children`, destroys
/// its control block, releases its identifier, writes its exit code
/// behind `exit_code_ptr` (already translated into the caller's
/// address space by the collaborator) and returns its identifier.
/// When several Zombie children match a wildcard, whichever the scan
/// encounters first is taken; callers must not rely on any order.
pub fn sys_waitpid(k: &mut Kernel, pid: isize, exit_code_ptr: &mut i32) -> (r: isize)
    requires
        old(k).wf(),
        old(k).current is Some,
        old(k).halted is None,
    ensures
        final(k).wf(),
        waitpid_transition(
            *old(k),
            *final(k),
            pid,
            *old(exit_code_ptr),
            *final(exit_code_ptr),
            r,
        ),
{
    let ghost pre = *old(k);
    let p = match k.current {
        Some(p) => p,
        None => {
            proof {
                assert(false);
            }
            0
        },
    };
    proof {
        assert(pre.live(p as int));
    }
    let ghost kids = pre.pcb_of(p as int).children@;
    // scan the children once: does anything match, and where is the
    // first matching Zombie?
    let n = match &k.procs[p] {
        Some(pcb) => pcb.children.len(),
        None => {
            proof {
                assert(false);
            }
            0
        },
    };
    let mut any_match: bool = false;
    let mut zombie_at: Option<usize> = None;
    let mut j: usize = 0;
    while j < n
        invariant
            pre.wf(),
            pre.live(p as int),
            *k == pre,
            j <= n,
            n == kids.len(),
            kids == pre.pcb_of(p as int).children@,
            any_match == exists|t: int| 0 <= t < j && wait_matches(#[trigger] kids[t], pid),
            match zombie_at {
                Some(z) => {
                    &&& z < j
                    &&& wait_matches(kids[z as int], pid)
                    &&& pre.pcb_of(kids[z as int] as int).status is Zombie
                    &&& forall|t: int|
                        0 <= t < z ==> !(wait_matches(#[trigger] kids[t], pid) && pre.pcb_of(
                            kids[t] as int,
                        ).status is Zombie)
                },
                None => forall|t: int|
                    0 <= t < j ==> !(wait_matches(#[trigger] kids[t], pid) && pre.pcb_of(
                        kids[t] as int,
                    ).status is Zombie),
            },
        decreases n - j,
    {
        let c = match &k.procs[p] {
            Some(pcb) => pcb.children[j],
            None => {
                proof {
                    assert(false);
                }
                0
            },
        };
        proof {
            assert(c == kids[j as int]);
            assert(pre.live(c as int));
        }
        let is_match = pid == -1 || (pid >= 0 && c == pid as usize);
        proof {
            assert(is_match == wait_matches(c, pid));
        }
        if is_match {
            any_match = true;
            let is_zombie = match &k.procs[c] {
                Some(cpcb) => cpcb.status == TaskStatus::Zombie,
                None => {
                    proof {
                        assert(false);
                    }
                    false
                },
            };
            if is_zombie {
                match zombie_at {
                    Some(_) => {},
                    None => {
                        zombie_at = Some(j);
                    },
                }
            }
        }
        j = j + 1;
    }
    if !any_match {
        // no child matches at all
        return -1;
    }
    match zombie_at {
        None => {
            // a matching child exists but has not exited yet
            -2
        },
        Some(z) => {
            // reap: by the ownership invariant no other owner
            // remains, so the block can be destroyed outright
            let c = match &mut k.procs[p] {
                Some(pcb) => pcb.children.remove(z),
                None => {
                    proof {
                        assert(false);
                    }
                    0
                },
            };
            proof {
                assert(c == kids[z as int]);
                assert(pre.live(c as int));
                assert(c as int != p as int) by {
                    assert(pre.pcb_of(c as int).parent == Some(p));
                    assert(pre.pcb_of(c as int).parent != Some(c));
                }
            }
            let exit_code = match &k.procs[c] {
                Some(cpcb) => cpcb.exit_code,
                None => {
                    proof {
                        assert(false);
                    }
                    0
                },
            };
            let cslot = &mut k.procs[c];
            *cslot = None;
            k.recycled_pids.push(c);
            *exit_code_ptr = exit_code;
            proof {
                let post = *k;
                lemma_waitpid_reap_wf(pre, post, p as int, z as int);
            }
            c as isize
        },
    }
}

/// Reaping one Zombie child leaves the scheduler well-formed: the
/// ownership invariant says the reaped block was owned by the caller's
/// children list alone, so no dangling owning link remains, and a
/// Zombie sits in no queue and is never current.
#[verifier::rlimit(50)]
proof fn lemma_waitpid_reap_wf(pre: Kernel, post: Kernel, p: int, z: int)
    requires
        pre.wf(),
        pre.current == Some(p as usize),
        pre.live(p),
        0 <= z < pre.pcb_of(p).children@.len(),
        pre.pcb_of(pre.pcb_of(p).children@[z] as int).status is Zombie,
        post.procs@.len() == pre.procs@.len(),
        forall|q: int|
            #![trigger post.procs@[q]]
            0 <= q < pre.procs@.len() && q != p && q != pre.pcb_of(p).children@[z] as int
                ==> post.procs@[q] == pre.procs@[q],
        post.procs@[pre.pcb_of(p).children@[z] as int] is None,
        post.live(p),
        post.pcb_of(p).children@ == pre.pcb_of(p).children@.remove(z),
        post.pcb_of(p).pid == pre.pcb_of(p).pid,
        post.pcb_of(p).status == pre.pcb_of(p).status,
        post.pcb_of(p).parent == pre.pcb_of(p).parent,
        post.pcb_of(p).coroutines == pre.pcb_of(p).coroutines,
        post.recycled_pids@ == pre.recycled_pids@.push(pre.pcb_of(p).children@[z]),
        post.ready_queue@ == pre.ready_queue@,
        post.current == pre.current,
    ensures
        post.wf(),
{
    let kids = pre.pcb_of(p).children@;
    let c = kids[z] as int;
    assert(pre.live(c));
    assert(c != 0);
    assert(c != p) by {
        assert(pre.pcb_of(c).parent == Some(p as usize));
        assert(pre.pcb_of(c).parent != Some(c as usize));
    }
    assert forall|q: int| 0 <= q < pre.procs@.len() && q != p && q != c implies post.procs@[q]
        == pre.procs@[q] by {}
    assert(post.live(p));
    assert forall|q: int| post.live(q) implies (#[trigger] post.pcb_of(q)).pid == q by {
        if q != p && q != c {
            assert(post.procs@[q] == pre.procs@[q]);
            assert(pre.pcb_of(q).pid == q);
        } else if q == p {
            assert(pre.pcb_of(p).pid == p);
        }
    }
    assert forall|q: int| post.live(q) implies (#[trigger] post.pcb_of(q)).coroutines.wf() by {
        if q != p && q != c {
            assert(post.procs@[q] == pre.procs@[q]);
            assert(pre.pcb_of(q).coroutines.wf());
        } else if q == p {
            assert(pre.pcb_of(p).coroutines.wf());
        }
    }
    assert forall|q: int| post.live(q) implies (#[trigger] post.pcb_of(q)).parent != Some(
        q as usize,
    ) by {
        if q != p && q != c {
            assert(post.procs@[q] == pre.procs@[q]);
            assert(pre.pcb_of(q).parent != Some(q as usize));
        } else if q == p {
            assert(pre.pcb_of(p).parent != Some(p as usize));
        }
    }
    assert forall|q: int, i: int|
        #![trigger post.pcb_of(q).children@[i]]
        post.live(q) && 0 <= i < post.pcb_of(q).children@.len() implies {
        let w = post.pcb_of(q).children@[i] as int;
        &&& post.live(w)
        &&& w != 0
        &&& post.pcb_of(w).parent == Some(q as usize)
    } by {
        if q == p {
            let w = kids.remove(z)[i] as int;
            let pi = if i < z {
                i
            } else {
                i + 1
            };
            assert(kids.remove(z)[i] == kids[pi]) by {
                kids.remove_ensures(z);
            }
            assert(pre.live(w));
            assert(pre.pcb_of(w).parent == Some(p as usize));
            assert(w != 0);
            assert(w != c) by {
                assert(distinct(kids));
            }
            assert(w != p) by {
                assert(pre.pcb_of(w).parent != Some(w as usize));
            }
            assert(post.procs@[w] == pre.procs@[w]);
        } else {
            assert(post.procs@[q] == pre.procs@[q]);
            let w = pre.pcb_of(q).children@[i] as int;
            assert(pre.live(w));
            assert(pre.pcb_of(w).parent == Some(q as usize));
            assert(w != c) by {
                if w == c {
                    assert(pre.pcb_of(c).parent == Some(p as usize));
                }
            }
            if w == p {
                assert(post.pcb_of(p).parent == pre.pcb_of(p).parent);
            } else {
                assert(post.procs@[w] == pre.procs@[w]);
            }
        }
    }
    assert forall|q: int| post.live(q) implies distinct(
        (#[trigger] post.pcb_of(q)).children@,
    ) by {
        if q == p {
            assert(distinct(kids));
            assert forall|a: int, b: int|
                0 <= a < b < kids.remove(z).len() implies kids.remove(z)[a] != kids.remove(
                z,
            )[b] by {
                kids.remove_ensures(z);
                let pa = if a < z {
                    a
                } else {
                    a + 1
                };
                let pb = if b < z {
                    b
                } else {
                    b + 1
                };
                assert(kids.remove(z)[a] == kids[pa]);
                assert(kids.remove(z)[b] == kids[pb]);
            }
        } else {
            assert(post.procs@[q] == pre.procs@[q]);
            assert(distinct(pre.pcb_of(q).children@));
        }
    }
    assert forall|i: int| 0 <= i < post.recycled_pids@.len() implies {
        let s = #[trigger] post.recycled_pids@[i] as int;
        &&& 0 <= s < post.procs@.len()
        &&& post.procs@[s] is None
    } by {
        if i < pre.recycled_pids@.len() {
            let s = pre.recycled_pids@[i] as int;
            assert(pre.procs@[s] is None);
            assert(s != p);
            assert(s != c);
            assert(post.procs@[s] == pre.procs@[s]);
        } else {
            assert(post.recycled_pids@[i] == kids[z]);
        }
    }
    assert(distinct(post.recycled_pids@)) by {
        assert forall|a: int, b: int|
            0 <= a < b < post.recycled_pids@.len() implies post.recycled_pids@[a]
            != post.recycled_pids@[b] by {
            if b == post.recycled_pids@.len() - 1 {
                let s = pre.recycled_pids@[a] as int;
                assert(pre.procs@[s] is None);
                assert(s != c);
            } else {
                assert(distinct(pre.recycled_pids@));
            }
        }
    }
    assert(post.procs@[0] is Some) by {
        if p == 0 {
            assert(post.live(0));
        } else {
            assert(post.procs@[0] == pre.procs@[0]);
        }
    }
    assert(post.pcb_of(0).parent is None) by {
        if p == 0 {
            assert(post.pcb_of(0).parent == pre.pcb_of(0).parent);
        } else {
            assert(post.procs@[0] == pre.procs@[0]);
        }
    }
    assert forall|q: int|
        post.live(q) && (#[trigger] post.pcb_of(q)).status is Running implies post.current == Some(
        q as usize,
    ) by {
        if q != p && q != c {
            assert(post.procs@[q] == pre.procs@[q]);
            assert(pre.pcb_of(q).status is Running);
        } else if q == p {
            assert(pre.pcb_of(p).status is Running);
        }
    }
    assert forall|i: int| 0 <= i < post.ready_queue@.len() implies post.live(
        #[trigger] post.ready_queue@[i] as int,
    ) && post.pcb_of(post.ready_queue@[i] as int).status is Ready by {
        let w = pre.ready_queue@[i] as int;
        assert(pre.live(w));
        assert(pre.pcb_of(w).status is Ready);
        assert(w != p) by {
            assert(pre.pcb_of(p).status is Running);
        }
        assert(w != c) by {
            assert(pre.pcb_of(c).status is Zombie);
        }
        assert(post.procs@[w] == pre.procs@[w]);
    }
}

/// Law: with exactly one Zombie child — however many non-Zombie
/// children stand beside it — a wildcard wait reaps exactly that
/// child: it returns the child's identifier, writes the child's exit
/// code to the output location, and removes the child from
/// `children`, leaving the other children in order.
#[verifier::rlimit(100)]
pub proof fn lemma_wait_reaps_unique_zombie(
    pre: Kernel,
    post: Kernel,
    code0: i32,
    code1: i32,
    r: isize,
    z: int,
)
    requires
        pre.wf(),
        pre.current is Some,
        0 <= z < pre.pcb_of(pre.current->0 as int).children@.len(),
        pre.pcb_of(pre.pcb_of(pre.current->0 as int).children@[z] as int).status is Zombie,
        forall|t: int|
            0 <= t < pre.pcb_of(pre.current->0 as int).children@.len() && t != z ==> !(pre.pcb_of(
                #[trigger] pre.pcb_of(pre.current->0 as int).children@[t] as int,
            ).status is Zombie),
        waitpid_transition(pre, post, -1isize, code0, code1, r),
    ensures
        r as int == pre.pcb_of(pre.current->0 as int).children@[z] as int,
        code1 == pre.pcb_of(pre.pcb_of(pre.current->0 as int).children@[z] as int).exit_code,
        post.pcb_of(pre.current->0 as int).children@ == pre.pcb_of(
            pre.current->0 as int,
        ).children@.remove(z),
{
    let p = pre.current->0 as int;
    let kids = pre.pcb_of(p).children@;
    assert(wait_matches(kids[z], -1isize));
    let j = choose|j: int|
        {
            let c = kids[j] as int;
            &&& 0 <= j < kids.len()
            &&& wait_matches(#[trigger] kids[j], -1isize)
            &&& pre.pcb_of(c).status is Zombie
            &&& forall|t: int|
                0 <= t < j ==> !(wait_matches(#[trigger] kids[t], -1isize) && pre.pcb_of(
                    kids[t] as int,
                ).status is Zombie)
            &&& r as int == c
            &&& code1 == pre.pcb_of(c).exit_code
            &&& post.pcb_of(p).children@ == kids.remove(j)
        };
    assert(j == z);
}

/// Law: a wait on a caller none of whose children is a Zombie reaps
/// nothing: it returns −1 when no child matches the target at all and
/// −2 when one matches but has not exited, and either way the state —
/// `children` included — and the output location are untouched.  In
/// particular, a second wildcard wait right after the only Zombie
/// child was reaped returns −1 exactly when no child remains.
pub proof fn lemma_wait_without_zombie(
    s: Kernel,
    s2: Kernel,
    target: isize,
    code0: i32,
    code1: i32,
    r: isize,
)
    requires
        s.wf(),
        s.current is Some,
        forall|t: int|
            0 <= t < s.pcb_of(s.current->0 as int).children@.len() ==> !(s.pcb_of(
                #[trigger] s.pcb_of(s.current->0 as int).children@[t] as int,
            ).status is Zombie),
        waitpid_transition(s, s2, target, code0, code1, r),
    ensures
        (exists|t: int|
            0 <= t < s.pcb_of(s.current->0 as int).children@.len() && wait_matches(
                #[trigger] s.pcb_of(s.current->0 as int).children@[t],
                target,
            )) ==> r == -2,
        (forall|t: int|
            0 <= t < s.pcb_of(s.current->0 as int).children@.len() ==> !wait_matches(
                #[trigger] s.pcb_of(s.current->0 as int).children@[t],
                target,
            )) ==> r == -1,
        Kernel::unchanged(s, s2),
        code1 == code0,
{
}

/// Law: waiting for a freshly forked child — one that has not run, let
/// alone exited — returns −2, WouldBlock: the caller should poll
/// again, typically after yielding, until the child has exited.
pub proof fn lemma_wait_right_after_fork(
    pre: Kernel,
    mid: Kernel,
    post: Kernel,
    child: usize,
    code0: i32,
    code1: i32,
    r: isize,
)
    requires
        pre.wf(),
        pre.current is Some,
        fork_transition(pre, mid, child),
        waitpid_transition(mid, post, child as isize, code0, code1, r),
        child <= MAX_PROCS,
    ensures
        r == -2,
        Kernel::unchanged(mid, post),
        code1 == code0,
{
    let p = pre.current->0 as int;
    let kids = mid.pcb_of(p).children@;
    assert(kids[kids.len() - 1] == child);
    assert(wait_matches(kids[kids.len() - 1], child as isize));
    assert forall|t: int|
        0 <= t < kids.len() && wait_matches(#[trigger] kids[t], child as isize) implies !(
        mid.pcb_of(kids[t] as int).status is Zombie) by {
        assert(kids[t] == child);
        assert(mid.pcb_of(child as int).status is Ready);
    }
}

/// Law: once the awaited child has exited and become a Zombie, a wait
/// naming its identifier reaps it: the child's identifier comes back,
/// its exit code lands in the output location, and its owning link
/// leaves `children` — so polling ends with the reaped identifier.
pub proof fn lemma_wait_reaps_exited_child(
    s: Kernel,
    s2: Kernel,
    child: usize,
    z: int,
    code0: i32,
    code1: i32,
    r: isize,
)
    requires
        s.wf(),
        s.current is Some,
        0 <= z < s.pcb_of(s.current->0 as int).children@.len(),
        s.pcb_of(s.current->0 as int).children@[z] == child,
        s.pcb_of(child as int).status is Zombie,
        waitpid_transition(s, s2, child as isize, code0, code1, r),
        child <= MAX_PROCS,
    ensures
        r as int == child as int,
        code1 == s.pcb_of(child as int).exit_code,
        s2.pcb_of(s.current->0 as int).children@ == s.pcb_of(
            s.current->0 as int,
        ).children@.remove(z),
{
    let p = s.current->0 as int;
    let kids = s.pcb_of(p).children@;
    assert(wait_matches(kids[z], child as isize));
    let j = choose|j: int|
        {
            let c = kids[j] as int;
            &&& 0 <= j < kids.len()
            &&& wait_matches(#[trigger] kids[j], child as isize)
            &&& s.pcb_of(c).status is Zombie
            &&& forall|t: int|
                0 <= t < j ==> !(wait_matches(#[trigger] kids[t], child as isize) && s.pcb_of(
                    kids[t] as int,
                ).status is Zombie)
            &&& r as int == c
            &&& code1 == s.pcb_of(c).exit_code
            &&& s2.pcb_of(p).children@ == kids.remove(j)
        };
    assert(kids[j] == child);
    assert(j == z) by {
        assert(distinct(kids));
    }
}

/// Law: a wait naming an identifier that no child holds returns −1
/// and leaves everything — `children` and the output location
/// included — unchanged.
pub proof fn lemma_wait_no_matching_child(
    s: Kernel,
    s2: Kernel,
    target: isize,
    code0: i32,
    code1: i32,
    r: isize,
)
    requires
        s.wf(),
        s.current is Some,
        target >= 0,
        forall|t: int|
            0 <= t < s.pcb_of(s.current->0 as int).children@.len() ==> (
            #[trigger] s.pcb_of(s.current->0 as int).children@[t]) as int != target as int,
        waitpid_transition(s, s2, target, code0, code1, r),
    ensures
        r == -1,
        Kernel::unchanged(s, s2),
        s2.pcb_of(s.current->0 as int).children@ == s.pcb_of(s.current->0 as int).children@,
        code1 == code0,
{
    let p = s.current->0 as int;
    let kids = s.pcb_of(p).children@;
    assert forall|t: int| 0 <= t < kids.len() implies !wait_matches(
        #[trigger] kids[t],
        target,
    ) by {
        assert(kids[t] as int != target as int);
    }
    assert(s2.procs@ == s.procs@);
}

/// The two states differ at most in the coroutine scheduler of the
/// calling process: every other process, queue and ambient field is
/// untouched.  This is the kernel-level shape of every coroutine
/// syscall — coroutines are scoped to their owner.
pub open spec fn mgr_updated(pre: Kernel, post: Kernel) -> bool {
    let p = pre.current->0 as int;
    &&& post.procs@.len() == pre.procs@.len()
    &&& forall|q: int|
        #![trigger post.procs@[q]]
        0 <= q < pre.procs@.len() && q != p ==> post.procs@[q] == pre.procs@[q]
    &&& post.live(p)
    &&& post.pcb_of(p).pid == pre.pcb_of(p).pid
    &&& post.pcb_of(p).status == pre.pcb_of(p).status
    &&& post.pcb_of(p).task_cx == pre.pcb_of(p).task_cx
    &&& post.pcb_of(p).exit_code == pre.pcb_of(p).exit_code
    &&& post.pcb_of(p).parent == pre.pcb_of(p).parent
    &&& post.pcb_of(p).children == pre.pcb_of(p).children
    &&& post.pcb_of(p).ret_val == pre.pcb_of(p).ret_val
    &&& post.pcb_of(p).image == pre.pcb_of(p).image
    &&& post.ready_queue@ == pre.ready_queue@
    &&& post.current == pre.current
    &&& Kernel::same_ambient(pre, post)
}

/// The coroutine scheduler of the calling process.
pub open spec fn cur_mgr(k: Kernel) -> CoroutineManager {
    k.pcb_of(k.current->0 as int).coroutines
}

/// Creates a coroutine inside the calling process: allocates the next
/// identifier and a disjoint stack region, seeds the initial context
/// through the trampoline, registers the block and enqueues it Ready.
/// Returns the new identifier.  No control transfers.
pub fn sys_coroutine_create(k: &mut Kernel, entry: usize, arg: usize, stack_size: usize) -> (r:
    isize)
    requires
        old(k).wf(),
        old(k).current is Some,
        old(k).halted is None,
        cur_mgr(*old(k)).coroutines@.len() < crate::coroutine::MAX_COROUTINES,
        cur_mgr(*old(k)).next_stack_base + stack_size <= usize::MAX,
    ensures
        final(k).wf(),
        mgr_updated(*old(k), *final(k)),
        r as int == cur_mgr(*old(k)).coroutines@.len() + 1,
        CoroutineManager::create_step(
            cur_mgr(*old(k)),
            cur_mgr(*final(k)),
            entry,
            arg,
            stack_size,
            r as usize,
        ),
{
    let ghost pre = *old(k);
    let p = match k.current {
        Some(p) => p,
        None => {
            proof {
                assert(false);
            }
            0
        },
    };
    proof {
        assert(pre.live(p as int));
        assert(pre.pcb_of(p as int).coroutines.wf());
    }
    let slot = &mut k.procs[p];
    let cid = match slot {
        Some(pcb) => pcb.coroutines.create_coroutine(entry, arg, stack_size),
        None => {
            proof {
                assert(false);
            }
            0
        },
    };
    proof {
        let post = *k;
        assert(post.procs@ =~= pre.procs@.update(p as int, post.procs@[p as int]));
        lemma_pcb_update_wf(pre, post, p as int, post.procs@[p as int]->0);
    }
    cid as isize
}

/// Voluntarily yields within the calling process: runs its next ready
/// coroutine.  Returns 0 when a ready coroutine was there to run and
/// −1 exactly when none was — the ready FIFO was empty.
pub fn sys_coroutine_yield(k: &mut Kernel) -> (r: isize)
    requires
        old(k).wf(),
        old(k).current is Some,
        old(k).halted is None,
    ensures
        final(k).wf(),
        mgr_updated(*old(k), *final(k)),
        r == 0 || r == -1,
        (r == 0) == (cur_mgr(*old(k)).ready_queue@.len() > 0),
        CoroutineManager::yield_step(
            cur_mgr(*old(k)),
            cur_mgr(*final(k)),
            if cur_mgr(*old(k)).ready_queue@.len() > 0 && cur_mgr(
                *old(k),
            ).current_coroutine is Some {
                Some(
                    (
                        cur_mgr(*old(k)).current_coroutine->0,
                        cur_mgr(*old(k)).ready_queue@[0],
                    ),
                )
            } else {
                None
            },
        ),
{
    let ghost pre = *old(k);
    let p = match k.current {
        Some(p) => p,
        None => {
            proof {
                assert(false);
            }
            0
        },
    };
    proof {
        assert(pre.live(p as int));
        assert(pre.pcb_of(p as int).coroutines.wf());
    }
    let slot = &mut k.procs[p];
    let switched = match slot {
        Some(pcb) => pcb.coroutines.switch_to_next_coroutine(),
        None => {
            proof {
                assert(false);
            }
            false
        },
    };
    proof {
        let post = *k;
        assert(post.procs@ =~= pre.procs@.update(p as int, post.procs@[p as int]));
        lemma_pcb_update_wf(pre, post, p as int, post.procs@[p as int]->0);
    }
    if switched {
        0
    } else {
        -1
    }
}

/// Resumes the coroutine with the given identifier inside the calling
/// process: a Blocked target is made runnable — that is what 0
/// reports — and one scheduling step runs at once.  Returns −1,
/// changing nothing, when the target is ineligible: unknown, already
/// Ready, already Running, or Exited.
pub fn sys_coroutine_resume(k: &mut Kernel, cid: usize) -> (r: isize)
    requires
        old(k).wf(),
        old(k).current is Some,
        old(k).halted is None,
    ensures
        final(k).wf(),
        mgr_updated(*old(k), *final(k)),
        r == 0 || r == -1,
        CoroutineManager::resume_then_yield(
            cur_mgr(*old(k)),
            cur_mgr(*final(k)),
            cid,
            r == 0,
        ),
{
    let ghost pre = *old(k);
    let p = match k.current {
        Some(p) => p,
        None => {
            proof {
                assert(false);
            }
            0
        },
    };
    proof {
        assert(pre.live(p as int));
        assert(pre.pcb_of(p as int).coroutines.wf());
    }
    let slot = &mut k.procs[p];
    let switched = match slot {
        Some(pcb) => crate::task::coroutine_resume(&mut pcb.coroutines, cid),
        None => {
            proof {
                assert(false);
            }
            false
        },
    };
    proof {
        let post = *k;
        assert(post.procs@ =~= pre.procs@.update(p as int, post.procs@[p as int]));
        lemma_pcb_update_wf(pre, post, p as int, post.procs@[p as int]->0);
    }
    if switched {
        0
    } else {
        -1
    }
}

/// Exits the running coroutine of the calling process: marks it Exited
/// — its registry entry and stack region persist, a carried-forward
/// limitation — clears `current` and schedules the ready FIFO's front.
/// Propagates `exit_code` when another coroutine was there to run, −1
/// when nothing was left runnable.
pub fn sys_coroutine_exit(k: &mut Kernel, exit_code: i32) -> (r: isize)
    requires
        old(k).wf(),
        old(k).current is Some,
        old(k).halted is None,
    ensures
        final(k).wf(),
        mgr_updated(*old(k), *final(k)),
        cur_mgr(*old(k)).ready_queue@.len() > 0 ==> r == exit_code as isize,
        cur_mgr(*old(k)).ready_queue@.len() == 0 ==> r == -1,
        exists|mid: CoroutineManager|
            {
                &&& #[trigger] CoroutineManager::exit_step(cur_mgr(*old(k)), mid)
                &&& CoroutineManager::yield_step(mid, cur_mgr(*final(k)), None)
            },
{
    let ghost pre = *old(k);
    let p = match k.current {
        Some(p) => p,
        None => {
            proof {
                assert(false);
            }
            0
        },
    };
    proof {
        assert(pre.live(p as int));
        assert(pre.pcb_of(p as int).coroutines.wf());
    }
    let slot = &mut k.procs[p];
    let had_next = match slot {
        Some(pcb) => {
            pcb.coroutines.exit_current_coroutine();
            let ghost mid = pcb.coroutines;
            // with `current` cleared, the step hands no pair to the
            // switch primitive; it still seats the FIFO's front
            let had_next = pcb.coroutines.switch_to_next_coroutine();
            proof {
                assert(CoroutineManager::exit_step(pre.pcb_of(p as int).coroutines, mid));
            }
            had_next
        },
        None => {
            proof {
                assert(false);
            }
            false
        },
    };
    proof {
        let post = *k;
        assert(post.procs@ =~= pre.procs@.update(p as int, post.procs@[p as int]));
        lemma_pcb_update_wf(pre, post, p as int, post.procs@[p as int]->0);
    }
    if had_next {
        exit_code as isize
    } else {
        -1
    }
}

/// Appends the identifier to the ready FIFO without touching anything
/// else.
fn enqueue_ready(k: &mut Kernel, c: usize)
    ensures
        final(k).procs@ == old(k).procs@,
        final(k).ready_queue@ == old(k).ready_queue@.push(c),
        final(k).current == old(k).current,
        final(k).recycled_pids@ == old(k).recycled_pids@,
        final(k).apps@ == old(k).apps@,
        final(k).halted == old(k).halted,
        final(k).now_ms == old(k).now_ms,
{
    k.ready_queue.push_back(c);
}

/// Compares two byte strings for equality of contents.
fn bytes_eq(a: &Vec<u8>, b: &Vec<u8>) -> (r: bool)
    ensures
        r == (a@ == b@),
{
    if a.len() != b.len() {
        proof {
            assert(a@.len() != b@.len());
        }
        return false;
    }
    let mut i: usize = 0;
    while i < a.len()
        invariant
            i <= a@.len(),
            a@.len() == b@.len(),
            forall|j: int| 0 <= j < i ==> a@[j] == b@[j],
        decreases a@.len() - i,
    {
        if a[i] != b[i] {
            proof {
                assert(a@[i as int] != b@[i as int]);
            }
            return false;
        }
        i = i + 1;
    }
    proof {
        assert(a@ =~= b@);
    }
    true
}

/// Copies a byte string.
fn copy_bytes(v: &Vec<u8>) -> (r: Vec<u8>)
    ensures
        r@ == v@,
{
    let mut r: Vec<u8> = Vec::new();
    let mut i: usize = 0;
    while i < v.len()
        invariant
            i <= v@.len(),
            r@ == v@.subrange(0, i as int),
        decreases v@.len() - i,
    {
        r.push(v[i]);
        i = i + 1;
        proof {
            assert(r@ =~= v@.subrange(0, i as int));
        }
    }
    proof {
        assert(r@ =~= v@);
    }
    r
}

/// Every slab slot other than the caller's and the child's is exactly
/// what it was before the fork.
proof fn lemma_fork_frame(pre: Kernel, post: Kernel, child: usize, q: int)
    requires
        pre.current is Some,
        fork_transition(pre, post, child),
        0 <= q < pre.procs@.len(),
        q != pre.current->0 as int,
        q != child as int,
    ensures
        post.procs@[q] == pre.procs@[q],
{
}

/// A fork leaves the scheduler well-formed: the child occupies a slot
/// no owning link, queue entry or processor record named before.
#[verifier::rlimit(50)]
proof fn lemma_fork_wf(pre: Kernel, post: Kernel, p: int, child: usize)
    requires
        pre.wf(),
        pre.current == Some(p as usize),
        pre.live(p),
        pre.procs@.len() < MAX_PROCS,
        fork_transition(pre, post, child),
    ensures
        post.wf(),
        child as int != p,
        0 < child < MAX_PROCS,
{
    let c = child as int;
    assert(pre.current->0 as int == p);
    assert(pre.live(0));
    if pre.recycled_pids@.len() > 0 {
        assert(pre.procs@[c] is None);
        assert(c != p);
        assert(c != 0);
    } else {
        assert(c == pre.procs@.len());
        assert(c != p);
        assert(c != 0);
    }
    assert forall|q: int| 0 <= q < pre.procs@.len() && q != p && q != c implies pre.live(q)
        <==> post.live(q) by {
        assert(post.procs@[q] == pre.procs@[q]);
    }
    assert(post.live(p));
    assert forall|q: int| post.live(q) implies (#[trigger] post.pcb_of(q)).pid == q by {
        if q != p && q != c {
            assert(post.procs@[q] == pre.procs@[q]);
            assert(pre.pcb_of(q).pid == q);
        }
    }
    assert forall|q: int| post.live(q) implies (#[trigger] post.pcb_of(q)).coroutines.wf() by {
        if q != p && q != c {
            assert(post.procs@[q] == pre.procs@[q]);
            assert(pre.pcb_of(q).coroutines.wf());
        } else if q == p {
            assert(pre.pcb_of(p).coroutines.wf());
        }
    }
    assert forall|q: int| post.live(q) implies (#[trigger] post.pcb_of(q)).parent != Some(
        q as usize,
    ) by {
        if q != p && q != c {
            assert(post.procs@[q] == pre.procs@[q]);
            assert(pre.pcb_of(q).parent != Some(q as usize));
        } else if q == p {
            assert(pre.pcb_of(p).parent != Some(p as usize));
        }
    }
    assert forall|q: int, i: int|
        #![trigger post.pcb_of(q).children@[i]]
        post.live(q) && 0 <= i < post.pcb_of(q).children@.len() implies {
        let w = post.pcb_of(q).children@[i] as int;
        &&& post.live(w)
        &&& w != 0
        &&& post.pcb_of(w).parent == Some(q as usize)
    } by {
        if q == c {
            // no children yet
        } else if q == p {
            if i < pre.pcb_of(p).children@.len() {
                let w = pre.pcb_of(p).children@[i] as int;
                assert(pre.live(w));
                assert(0 <= w < pre.procs@.len());
                assert(pre.pcb_of(w).parent == Some(p as usize));
                assert(w != c) by {
                    if pre.recycled_pids@.len() > 0 {
                        assert(pre.procs@[c] is None);
                    }
                }
                assert(w != p) by {
                    assert(pre.pcb_of(w).parent != Some(w as usize));
                }
                lemma_fork_frame(pre, post, child, w);
            } else {
                assert(post.pcb_of(p).children@[i] == child);
            }
        } else {
            lemma_fork_frame(pre, post, child, q);
            assert(post.procs@[q] == pre.procs@[q]);
            let w = pre.pcb_of(q).children@[i] as int;
            assert(pre.live(w));
            assert(pre.pcb_of(w).parent == Some(q as usize));
            assert(w != c);
            if w == p {
                // the caller keeps its parent link through the fork
                assert(post.pcb_of(p).parent == pre.pcb_of(p).parent);
            } else {
                lemma_fork_frame(pre, post, child, w);
                assert(post.procs@[w] == pre.procs@[w]);
            }
        }
    }
    assert forall|q: int| post.live(q) implies distinct(
        (#[trigger] post.pcb_of(q)).children@,
    ) by {
        if q == c {
        } else if q == p {
            assert(distinct(pre.pcb_of(p).children@));
            assert forall|a: int, b: int|
                0 <= a < b < post.pcb_of(p).children@.len() implies post.pcb_of(p).children@[a]
                != post.pcb_of(p).children@[b] by {
                if b == post.pcb_of(p).children@.len() - 1 {
                    let w = pre.pcb_of(p).children@[a] as int;
                    assert(pre.live(w));
                    assert(w != c);
                }
            }
        } else {
            assert(post.procs@[q] == pre.procs@[q]);
            assert(distinct(pre.pcb_of(q).children@));
        }
    }
    assert forall|i: int| 0 <= i < post.recycled_pids@.len() implies {
        let s = #[trigger] post.recycled_pids@[i] as int;
        &&& 0 <= s < post.procs@.len()
        &&& post.procs@[s] is None
    } by {
        if pre.recycled_pids@.len() > 0 {
            assert(post.recycled_pids@[i] == pre.recycled_pids@[i]);
            let s = pre.recycled_pids@[i] as int;
            assert(pre.procs@[s] is None);
            assert(s != p);
            assert(s != c) by {
                assert(distinct(pre.recycled_pids@));
                assert(pre.recycled_pids@[pre.recycled_pids@.len() - 1] == child);
            }
            assert(post.procs@[s] == pre.procs@[s]);
        } else {
            let s = pre.recycled_pids@[i] as int;
            assert(pre.procs@[s] is None);
            assert(s != p && s != c);
            assert(post.procs@[s] == pre.procs@[s]);
        }
    }
    assert(distinct(post.recycled_pids@)) by {
        if pre.recycled_pids@.len() > 0 {
            assert forall|a: int, b: int|
                0 <= a < b < post.recycled_pids@.len() implies post.recycled_pids@[a]
                != post.recycled_pids@[b] by {
                assert(pre.recycled_pids@[a] != pre.recycled_pids@[b]);
            }
        }
    }
    assert(post.procs@[0] is Some) by {
        if p == 0 {
            assert(post.live(0));
        } else {
            assert(post.procs@[0] == pre.procs@[0]);
        }
    }
    assert(post.pcb_of(0).parent is None) by {
        if p == 0 {
            assert(post.pcb_of(0).parent == pre.pcb_of(0).parent);
        } else {
            assert(post.procs@[0] == pre.procs@[0]);
        }
    }
    assert forall|q: int|
        post.live(q) && (#[trigger] post.pcb_of(q)).status is Running implies post.current == Some(
        q as usize,
    ) by {
        if q != p && q != c {
            assert(post.procs@[q] == pre.procs@[q]);
            assert(pre.pcb_of(q).status is Running);
        } else if q == p {
            assert(pre.pcb_of(p).status is Running);
        }
    }
    assert forall|i: int| 0 <= i < post.ready_queue@.len() implies post.live(
        #[trigger] post.ready_queue@[i] as int,
    ) && post.pcb_of(post.ready_queue@[i] as int).status is Ready by {
        if i < pre.ready_queue@.len() {
            let w = pre.ready_queue@[i] as int;
            assert(pre.live(w));
            assert(pre.pcb_of(w).status is Ready);
            assert(w != c);
            assert(w != p) by {
                assert(pre.pcb_of(p).status is Running);
            }
            assert(post.procs@[w] == pre.procs@[w]);
        } else {
            assert(post.ready_queue@[i] == child);
        }
    }
    assert(distinct(post.ready_queue@)) by {
        assert forall|a: int, b: int|
            0 <= a < b < post.ready_queue@.len() implies post.ready_queue@[a]
            != post.ready_queue@[b] by {
            if b == post.ready_queue@.len() - 1 {
                let w = pre.ready_queue@[a] as int;
                assert(pre.live(w));
                assert(w != c);
            } else {
                assert(distinct(pre.ready_queue@));
            }
        }
    }
}

} // verus!
