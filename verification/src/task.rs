//! Process control blocks, the task manager and the processor.
//!
//! One [`Kernel`] value is the explicitly constructed top-level
//! scheduler: the slab of process control blocks (each referred to by
//! its identifier, which is its stable slab index), the system-wide
//! ready FIFO, the processor's record of the running process, the
//! application store consulted by exec, and the platform halt flag.
//! It is built once at boot and passed by reference to every operation;
//! no state hides in process-wide statics.
//!
//! Status machine of a process: Ready → (scheduled) → Running →
//! (yield) → Ready; Running → (exit) → Zombie (terminal, awaiting
//! reaping by the parent).  The parent/child relation forms a tree:
//! `children` are owning links held by one parent at a time, `parent`
//! is a non-owning back-reference, and a process is destroyed only at
//! reap time, once removed from the single children list that owns it —
//! uniqueness of that owner is an invariant proved here, not checked
//! at run time with a reference count.

use vstd::prelude::*;
use crate::context::TaskContext;
use crate::coroutine::CoroutineManager;
use crate::distinct;
use std::collections::VecDeque;

verus! {

/// Identifier reserved for the root/idle process, created at boot and
/// never reaped; orphans are reparented to it.
pub const IDLE_PID: usize = 0;

/// Largest number of slab slots the kernel will use; keeps every
/// process identifier representable as a non-negative `isize` syscall
/// result.
pub const MAX_PROCS: usize = 0x7fff_ffff;

/// Status of a process.
#[derive(Clone, Copy, PartialEq, Eq, Structural, Debug)]
pub enum TaskStatus {
    /// Eligible to run; enqueued in the task manager's ready FIFO.
    Ready,
    /// The process the processor is executing (at most one).
    Running,
    /// Exited but not yet reaped: terminal, holds its exit code for the
    /// parent to collect.
    Zombie,
}

/// How the platform was halted when the root/idle process exited.
#[derive(Clone, Copy, PartialEq, Eq, Structural, Debug)]
pub enum HaltKind {
    /// The root process exited with code zero.
    Success,
    /// The root process exited with a nonzero code.
    Failure,
}

/// The kernel's record of one process.
pub struct TaskControlBlock {
    /// Identifier; equals the slab index the block occupies.
    pub pid: usize,
    /// Current status.
    pub status: TaskStatus,
    /// Saved execution state; meaningful only while not Running.
    pub task_cx: TaskContext,
    /// Exit code; meaningful only once the status is Zombie.
    pub exit_code: i32,
    /// Non-owning back-reference to the parent, updated on
    /// reparenting; `None` only for the root process.
    pub parent: Option<usize>,
    /// Owning links to the children, in the order they were acquired.
    pub children: Vec<usize>,
    /// Persisted return-value slot of the suspended trap frame: the
    /// value this process observes as its syscall result when next
    /// scheduled.  Forced to zero in a forked child.
    pub ret_val: isize,
    /// Name of the executable image the process runs, as raw bytes;
    /// replaced in place by exec.
    pub image: Vec<u8>,
    /// The cooperative coroutine scheduler this process owns; scoped to
    /// it, never shared between processes.
    pub coroutines: CoroutineManager,
}

/// The top-level scheduler state: slab, ready FIFO, processor record,
/// application store, clock and halt flag.
pub struct Kernel {
    /// Slab of control blocks; a process with identifier `p` occupies
    /// slot `p`.  A reaped slot is `None` until its identifier is
    /// reallocated.
    pub procs: Vec<Option<TaskControlBlock>>,
    /// Identifiers released at reap time, available for reallocation.
    pub recycled_pids: Vec<usize>,
    /// System-wide FIFO of Ready process identifiers; front runs next.
    pub ready_queue: VecDeque<usize>,
    /// Identifier of the Running process, if any.
    pub current: Option<usize>,
    /// Names of the binary images the loader collaborator can serve,
    /// as raw bytes.
    pub apps: Vec<Vec<u8>>,
    /// Set once when the root process exits; afterwards no further
    /// scheduling occurs.
    pub halted: Option<HaltKind>,
    /// Reading of the wall-clock millisecond collaborator.
    pub now_ms: usize,
}

impl Kernel {
    /// Slot `p` holds a process.
    pub open spec fn live(self, p: int) -> bool {
        0 <= p < self.procs@.len() && self.procs@[p] is Some
    }

    /// The control block in slot `p`.
    pub open spec fn pcb_of(self, p: int) -> TaskControlBlock {
        self.procs@[p]->0
    }

    /// The given control block with its status replaced and every
    /// other field kept.
    pub open spec fn pcb_with_status(t: TaskControlBlock, status: TaskStatus)
        -> TaskControlBlock {
        TaskControlBlock {
            pid: t.pid,
            status,
            task_cx: t.task_cx,
            exit_code: t.exit_code,
            parent: t.parent,
            children: t.children,
            ret_val: t.ret_val,
            image: t.image,
            coroutines: t.coroutines,
        }
    }

    /// The slab with the status of process `p` replaced.
    pub open spec fn slab_with_status(self, p: int, status: TaskStatus)
        -> Seq<Option<TaskControlBlock>> {
        self.procs@.update(p, Some(Self::pcb_with_status(self.pcb_of(p), status)))
    }

    /// Structural well-formedness of the slab: the root process always
    /// occupies slot 0; identifiers equal slab positions; every child
    /// link leads to a live non-root process whose back-reference names
    /// exactly that parent — so each process is owned by at most one
    /// children list, which is what makes destruction at reap time
    /// sound; recycled identifiers name empty slots, each once.
    pub open spec fn links_wf(self) -> bool {
        &&& 1 <= self.procs@.len() <= MAX_PROCS
        &&& self.procs@[0] is Some
        &&& self.pcb_of(0).parent is None
        &&& forall|p: int| self.live(p) ==> (#[trigger] self.pcb_of(p)).pid == p
        &&& forall|p: int| self.live(p) ==> (#[trigger] self.pcb_of(p)).coroutines.wf()
        &&& forall|p: int|
            self.live(p) ==> (#[trigger] self.pcb_of(p)).parent != Some(p as usize)
        &&& forall|p: int, i: int|
            #![trigger self.pcb_of(p).children@[i]]
            self.live(p) && 0 <= i < self.pcb_of(p).children@.len() ==> {
                let c = self.pcb_of(p).children@[i] as int;
                &&& self.live(c)
                &&& c != 0
                &&& self.pcb_of(c).parent == Some(p as usize)
            }
        &&& forall|p: int| self.live(p) ==> distinct((#[trigger] self.pcb_of(p)).children@)
        &&& forall|i: int|
            0 <= i < self.recycled_pids@.len() ==> {
                let s = #[trigger] self.recycled_pids@[i] as int;
                &&& 0 <= s < self.procs@.len()
                &&& self.procs@[s] is None
            }
        &&& distinct(self.recycled_pids@)
    }

    /// Well-formedness of the whole scheduler state: the slab structure
    /// holds, the ready FIFO holds live Ready processes each once, and
    /// at most one process is Running — exactly the recorded current
    /// one.
    pub open spec fn wf(self) -> bool {
        &&& self.links_wf()
        &&& match self.current {
            Some(c) => self.live(c as int) && self.pcb_of(c as int).status is Running,
            None => true,
        }
        &&& forall|p: int|
            self.live(p) && (#[trigger] self.pcb_of(p)).status is Running ==> self.current
                == Some(p as usize)
        &&& forall|i: int|
            0 <= i < self.ready_queue@.len() ==> self.live(
                #[trigger] self.ready_queue@[i] as int,
            ) && self.pcb_of(self.ready_queue@[i] as int).status is Ready
        &&& distinct(self.ready_queue@)
    }

    /// Everything but the slab, the FIFO and the processor record is
    /// the same in both states.
    pub open spec fn same_ambient(pre: Self, post: Self) -> bool {
        &&& post.recycled_pids@ == pre.recycled_pids@
        &&& post.apps@ == pre.apps@
        &&& post.halted == pre.halted
        &&& post.now_ms == pre.now_ms
    }

    /// Nothing observable changed between the two states.
    pub open spec fn unchanged(pre: Self, post: Self) -> bool {
        &&& post.procs@ == pre.procs@
        &&& post.ready_queue@ == pre.ready_queue@
        &&& post.current == pre.current
        &&& Self::same_ambient(pre, post)
    }

    /// Builds the scheduler at boot: one live process, the root, with
    /// identifier [`IDLE_PID`], status Ready, the given executable
    /// image, no parent, no children, a fresh coroutine scheduler and
    /// an empty saved context.  Nothing is enqueued or running yet, the
    /// application store is empty and the platform is not halted.
    pub fn new(root_image: Vec<u8>) -> (k: Kernel)
        ensures
            k.wf(),
            k.procs@.len() == 1,
            k.live(0),
            k.pcb_of(0).pid == IDLE_PID,
            k.pcb_of(0).status is Ready,
            k.pcb_of(0).parent is None,
            k.pcb_of(0).children@.len() == 0,
            k.pcb_of(0).image@ == root_image@,
            k.pcb_of(0).ret_val == 0,
            k.pcb_of(0).coroutines.coroutines@.len() == 0,
            k.recycled_pids@.len() == 0,
            k.ready_queue@.len() == 0,
            k.current is None,
            k.apps@.len() == 0,
            k.halted is None,
            k.now_ms == 0,
    {
        let root = TaskControlBlock {
            pid: IDLE_PID,
            status: TaskStatus::Ready,
            task_cx: TaskContext::zero_init(),
            exit_code: 0,
            parent: None,
            children: Vec::new(),
            ret_val: 0,
            image: root_image,
            coroutines: CoroutineManager::new(),
        };
        let mut procs: Vec<Option<TaskControlBlock>> = Vec::new();
        procs.push(Some(root));
        Kernel {
            procs,
            recycled_pids: Vec::new(),
            ready_queue: VecDeque::new(),
            current: None,
            apps: Vec::new(),
            halted: None,
            now_ms: 0,
        }
    }

    /// Enqueues the root process at boot, making it schedulable.
    pub fn add_initproc(&mut self)
        requires
            old(self).wf(),
            old(self).pcb_of(0).status is Ready,
            !old(self).ready_queue@.contains(0usize),
        ensures
            final(self).wf(),
            final(self).procs@ == old(self).procs@,
            final(self).ready_queue@ == old(self).ready_queue@.push(0usize),
            final(self).current == old(self).current,
            Self::same_ambient(*old(self), *final(self)),
    {
        self.ready_queue.push_back(IDLE_PID);
        proof {
            let pre = *old(self);
            let post = *self;
            lemma_links_preserved(pre, post);
            assert forall|i: int| 0 <= i < post.ready_queue@.len() implies post.live(
                #[trigger] post.ready_queue@[i] as int,
            ) && post.pcb_of(post.ready_queue@[i] as int).status is Ready by {
                let c = post.ready_queue@[i] as int;
                if i < pre.ready_queue@.len() {
                    assert(pre.live(c));
                    assert(post.pcb_of(c) == pre.pcb_of(c));
                } else {
                    assert(c == 0);
                    assert(post.pcb_of(0) == pre.pcb_of(0));
                }
            }
            assert(distinct(post.ready_queue@)) by {
                assert forall|i: int, j: int|
                    0 <= i < j < post.ready_queue@.len() implies post.ready_queue@[i]
                    != post.ready_queue@[j] by {
                    if j == post.ready_queue@.len() - 1 {
                        if pre.ready_queue@[i] == 0usize {
                            assert(pre.ready_queue@.contains(0usize));
                        }
                    }
                }
            }
        }
    }

    /// One iteration of the processor's scheduling loop, relating the
    /// state before and after: with an empty ready FIFO nothing runs
    /// and nothing changes; otherwise the FIFO's front is promoted to
    /// Running and recorded as current.
    pub open spec fn sched_transition(pre: Self, post: Self) -> bool {
        if pre.ready_queue@.len() == 0 {
            Self::unchanged(pre, post)
        } else {
            let f = pre.ready_queue@[0];
            &&& post.procs@ == pre.slab_with_status(f as int, TaskStatus::Running)
            &&& post.ready_queue@ == pre.ready_queue@.subrange(1, pre.ready_queue@.len() as int)
            &&& post.current == Some(f)
            &&& Self::same_ambient(pre, post)
        }
    }

    /// One iteration of the processor's scheduling loop: pops the ready
    /// FIFO's front — the process enqueued longest ago — marks it
    /// Running and records it as current, then (below this model)
    /// switches from the loop's own context into the saved context of
    /// that process.  Reports whether anything was runnable; with an
    /// empty FIFO the processor idles.
    pub fn run_next_task(&mut self) -> (ran: bool)
        requires
            old(self).wf(),
            old(self).current is None,
            old(self).halted is None,
        ensures
            final(self).wf(),
            Self::sched_transition(*old(self), *final(self)),
            ran == (old(self).ready_queue@.len() > 0),
            ran ==> final(self).current == Some(old(self).ready_queue@[0]),
    {
        let ghost pre = *old(self);
        match self.ready_queue.pop_front() {
            None => {
                proof {
                    let post = *self;
                    lemma_links_preserved(pre, post);
                    assert forall|p: int|
                        post.live(p) && (#[trigger] post.pcb_of(p)).status
                            is Running implies post.current == Some(p as usize) by {
                        assert(post.pcb_of(p) == pre.pcb_of(p));
                        assert(pre.pcb_of(p).status is Running);
                    }
                }
                false
            },
            Some(f) => {
                proof {
                    assert(pre.live(f as int));
                }
                let slot = &mut self.procs[f];
                match slot {
                    Some(pcb) => {
                        pcb.status = TaskStatus::Running;
                    },
                    None => {
                        proof {
                            assert(false);
                        }
                    },
                }
                self.current = Some(f);
                proof {
                    let post = *self;
                    assert(post.procs@ =~= pre.slab_with_status(f as int, TaskStatus::Running));
                    lemma_status_update_links(pre, post, f as int, TaskStatus::Running);
                    assert forall|i: int| 0 <= i < post.ready_queue@.len() implies post.live(
                        #[trigger] post.ready_queue@[i] as int,
                    ) && post.pcb_of(post.ready_queue@[i] as int).status is Ready by {
                        let c = post.ready_queue@[i] as int;
                        assert(post.ready_queue@[i] == pre.ready_queue@[i + 1]);
                        assert(pre.live(c));
                        assert(pre.ready_queue@[i + 1] != f);
                        assert(post.pcb_of(c) == pre.pcb_of(c));
                    }
                    assert(distinct(post.ready_queue@)) by {
                        assert forall|i: int, j: int|
                            0 <= i < j < post.ready_queue@.len() implies post.ready_queue@[i]
                            != post.ready_queue@[j] by {
                            assert(post.ready_queue@[i] == pre.ready_queue@[i + 1]);
                            assert(post.ready_queue@[j] == pre.ready_queue@[j + 1]);
                        }
                    }
                    assert forall|p: int|
                        post.live(p) && (#[trigger] post.pcb_of(p)).status
                            is Running implies post.current == Some(p as usize) by {
                        if p != f {
                            assert(post.pcb_of(p) == pre.pcb_of(p));
                            assert(pre.pcb_of(p).status is Running);
                        }
                    }
                }
                true
            },
        }
    }
}

/// What yielding the processor does, relating the state before and
/// after: the calling process moves to the ready FIFO's tail and the
/// FIFO's front runs next.  With nothing else ready the caller is
/// rescheduled at once and the state is unchanged.
pub open spec fn suspend_transition(pre: Kernel, post: Kernel) -> bool {
    let p = pre.current->0;
    if pre.ready_queue@.len() == 0 {
        Kernel::unchanged(pre, post)
    } else {
        let f = pre.ready_queue@[0];
        &&& post.procs@ == pre.slab_with_status(p as int, TaskStatus::Ready).update(
            f as int,
            Some(Kernel::pcb_with_status(pre.pcb_of(f as int), TaskStatus::Running)),
        )
        &&& post.ready_queue@ == pre.ready_queue@.subrange(
            1,
            pre.ready_queue@.len() as int,
        ).push(p)
        &&& post.current == Some(f)
        &&& Kernel::same_ambient(pre, post)
    }
}

/// Suspends the Running process: marks it Ready, pushes it to the task
/// manager's ready FIFO tail, and hands the processor to the FIFO's
/// front.  The context switch out happens below this model; control
/// returns to the suspended process when the FIFO brings it back to
/// the front.
pub fn suspend_current_and_run_next(k: &mut Kernel)
    requires
        old(k).wf(),
        old(k).current is Some,
        old(k).halted is None,
    ensures
        final(k).wf(),
        suspend_transition(*old(k), *final(k)),
        final(k).current is Some,
{
    let ghost pre = *old(k);
    let p = match k.current {
        Some(p) => p,
        None => {
            proof {
                assert(false);
            }
            0
        },
    };
    proof {
        assert(pre.live(p as int));
        assert forall|i: int| 0 <= i < pre.ready_queue@.len() implies pre.ready_queue@[i] != p by {
            assert(pre.pcb_of(pre.ready_queue@[i] as int).status is Ready);
        }
    }
    // demote the running process to Ready, at the FIFO's tail
    let slot = &mut k.procs[p];
    match slot {
        Some(pcb) => {
            pcb.status = TaskStatus::Ready;
        },
        None => {
            proof {
                assert(false);
            }
        },
    }
    k.current = None;
    k.ready_queue.push_back(p);
    proof {
        let mid = *k;
        assert(mid.procs@ =~= pre.slab_with_status(p as int, TaskStatus::Ready));
        lemma_status_update_links(pre, mid, p as int, TaskStatus::Ready);
        assert forall|i: int| 0 <= i < mid.ready_queue@.len() implies mid.live(
            #[trigger] mid.ready_queue@[i] as int,
        ) && mid.pcb_of(mid.ready_queue@[i] as int).status is Ready by {
            let c = mid.ready_queue@[i] as int;
            if i < pre.ready_queue@.len() {
                assert(pre.live(c));
                assert(c != p);
                assert(mid.pcb_of(c) == pre.pcb_of(c));
            }
        }
        assert(distinct(mid.ready_queue@)) by {
            assert forall|i: int, j: int|
                0 <= i < j < mid.ready_queue@.len() implies mid.ready_queue@[i]
                != mid.ready_queue@[j] by {
                if j < pre.ready_queue@.len() {
                    assert(distinct(pre.ready_queue@));
                } else {
                    assert(mid.ready_queue@[j] == p);
                }
            }
        }
        assert forall|q: int|
            mid.live(q) && (#[trigger] mid.pcb_of(q)).status is Running implies mid.current
                == Some(q as usize) by {
            if q != p {
                assert(mid.pcb_of(q) == pre.pcb_of(q));
                assert(pre.pcb_of(q).status is Running);
            }
        }
        assert(mid.wf());
    }
    let ghost mid = *k;
    let ran = k.run_next_task();
    proof {
        assert(ran);
        let post = *k;
        let f = mid.ready_queue@[0];
        if pre.ready_queue@.len() == 0 {
            // the caller was the only runnable process and resumes at once
            assert(f == p);
            assert(post.procs@ =~= pre.procs@);
            assert(post.ready_queue@ =~= pre.ready_queue@);
        } else {
            assert(f == pre.ready_queue@[0]);
            assert(f != p);
            assert(mid.pcb_of(f as int) == pre.pcb_of(f as int));
            assert(post.procs@ =~= pre.slab_with_status(p as int, TaskStatus::Ready).update(
                f as int,
                Some(Kernel::pcb_with_status(pre.pcb_of(f as int), TaskStatus::Running)),
            ));
            assert(post.ready_queue@ =~= pre.ready_queue@.subrange(
                1,
                pre.ready_queue@.len() as int,
            ).push(p));
        }
    }
}

/// How the platform is halted for a given exit code of the root/idle
/// process: code zero signals a success halt, anything else a failure
/// halt.
pub open spec fn halt_kind(exit_code: i32) -> HaltKind {
    if exit_code == 0 {
        HaltKind::Success
    } else {
        HaltKind::Failure
    }
}

/// What exiting does, relating the state before and after.
///
/// The root/idle process exiting halts the platform — the only path
/// that ends scheduling for good — leaving everything but the halt
/// flag untouched.  Any other process becomes a Zombie holding its
/// exit code, every one of its children is reparented to the root (the
/// back-reference moves to the root, the owning link is appended to
/// the root's children in order), its own children list empties, and
/// the ready FIFO's front is scheduled; with nothing ready the
/// processor is left idle.
pub open spec fn exit_transition(pre: Kernel, post: Kernel, exit_code: i32) -> bool {
    let p = pre.current->0 as int;
    if p == IDLE_PID {
        &&& post.procs@ == pre.procs@
        &&& post.ready_queue@ == pre.ready_queue@
        &&& post.current == pre.current
        &&& post.recycled_pids@ == pre.recycled_pids@
        &&& post.apps@ == pre.apps@
        &&& post.now_ms == pre.now_ms
        &&& post.halted == Some(halt_kind(exit_code))
    } else {
        let kids = pre.pcb_of(p).children@;
        let scheduled: Option<usize> = if pre.ready_queue@.len() > 0 {
            Some(pre.ready_queue@[0])
        } else {
            None
        };
        &&& post.procs@.len() == pre.procs@.len()
        &&& forall|q: int| post.live(q) <==> pre.live(q)
        &&& forall|q: int|
            pre.live(q) ==> {
                let old_pcb = pre.pcb_of(q);
                let new_pcb = #[trigger] post.pcb_of(q);
                &&& new_pcb.status == (if q == p {
                    TaskStatus::Zombie
                } else if scheduled == Some(q as usize) {
                    TaskStatus::Running
                } else {
                    old_pcb.status
                })
                &&& new_pcb.exit_code == (if q == p {
                    exit_code
                } else {
                    old_pcb.exit_code
                })
                &&& new_pcb.children@ == (if q == p {
                    Seq::<usize>::empty()
                } else if q == 0 {
                    pre.pcb_of(0).children@ + kids
                } else {
                    old_pcb.children@
                })
                &&& new_pcb.parent == (if kids.contains(q as usize) {
                    Some(IDLE_PID)
                } else {
                    old_pcb.parent
                })
                &&& new_pcb.pid == old_pcb.pid
                &&& new_pcb.task_cx == old_pcb.task_cx
                &&& new_pcb.ret_val == old_pcb.ret_val
                &&& new_pcb.image == old_pcb.image
                &&& new_pcb.coroutines == old_pcb.coroutines
            }
        &&& post.ready_queue@ == (if pre.ready_queue@.len() > 0 {
            pre.ready_queue@.subrange(1, pre.ready_queue@.len() as int)
        } else {
            pre.ready_queue@
        })
        &&& post.current == scheduled
        &&& post.recycled_pids@ == pre.recycled_pids@
        &&& post.apps@ == pre.apps@
        &&& post.halted == pre.halted
        &&& post.now_ms == pre.now_ms
    }
}

/// Exits the Running process.  If it is the root/idle process the
/// platform halts — with success for exit code zero, failure otherwise
/// — and no further scheduling occurs.  Otherwise the process becomes
/// a Zombie awaiting reaping: its exit code is recorded, its children
/// are reparented to the root process, its own list empties, the
/// process-owned address space is the resource collaborator's to
/// release, and the processor moves on to the ready FIFO's front with
/// a discarded outgoing context — there is nothing left to resume.
#[verifier::loop_isolation(false)]
pub fn exit_current_and_run_next(k: &mut Kernel, exit_code: i32)
    requires
        old(k).wf(),
        old(k).current is Some,
        old(k).halted is None,
    ensures
        final(k).wf(),
        exit_transition(*old(k), *final(k), exit_code),
{
    let ghost pre = *old(k);
    let p = match k.current {
        Some(p) => p,
        None => {
            proof {
                assert(false);
            }
            0
        },
    };
    proof {
        assert(pre.live(p as int));
    }
    if p == IDLE_PID {
        // deliberate halt path, not an error: the root exiting stops
        // scheduling for good
        k.halted = Some(
            if exit_code == 0 {
                HaltKind::Success
            } else {
                HaltKind::Failure
            },
        );
        proof {
            let post = *k;
            lemma_links_preserved(pre, post);
            assert forall|q: int|
                post.live(q) && (#[trigger] post.pcb_of(q)).status is Running implies post.current
                    == Some(q as usize) by {
                assert(post.pcb_of(q) == pre.pcb_of(q));
                assert(pre.pcb_of(q).status is Running);
            }
            assert forall|i: int| 0 <= i < post.ready_queue@.len() implies post.live(
                #[trigger] post.ready_queue@[i] as int,
            ) && post.pcb_of(post.ready_queue@[i] as int).status is Ready by {
                let c = post.ready_queue@[i] as int;
                assert(pre.live(c));
                assert(post.pcb_of(c) == pre.pcb_of(c));
            }
        }
        return ;
    }
    // mark the exiting process Zombie, record its exit code and take
    // its children; the address space it owned is released by the
    // memory collaborator, outside this model
    let mut kids: Vec<usize> = Vec::new();
    let slot = &mut k.procs[p];
    match slot {
        Some(pcb) => {
            pcb.status = TaskStatus::Zombie;
            pcb.exit_code = exit_code;
            core::mem::swap(&mut kids, &mut pcb.children);
        },
        None => {
            proof {
                assert(false);
            }
        },
    }
    k.current = None;
    let ghost mid = *k;
    proof {
        assert(kids@ == pre.pcb_of(p as int).children@);
        assert(mid.procs@ =~= pre.procs@.update(
            p as int,
            Some(
                TaskControlBlock {
                    pid: pre.pcb_of(p as int).pid,
                    status: TaskStatus::Zombie,
                    task_cx: pre.pcb_of(p as int).task_cx,
                    exit_code,
                    parent: pre.pcb_of(p as int).parent,
                    children: mid.pcb_of(p as int).children,
                    ret_val: pre.pcb_of(p as int).ret_val,
                    image: pre.pcb_of(p as int).image,
                    coroutines: pre.pcb_of(p as int).coroutines,
                },
            ),
        ));
        assert(mid.pcb_of(p as int).children@.len() == 0);
        // facts about the orphans, all stated over the pre state
        assert forall|j: int| 0 <= j < kids@.len() implies {
            let c = #[trigger] kids@[j] as int;
            &&& pre.live(c)
            &&& c != 0
            &&& c != p
            &&& pre.pcb_of(c).parent == Some(p as usize)
        } by {
            let c = pre.pcb_of(p as int).children@[j] as int;
            assert(pre.live(c));
            assert(pre.pcb_of(c).parent == Some(p as usize));
            assert(pre.pcb_of(c).parent != Some(c as usize));
        }
    }
    // reparent every orphan to the root process, in order
    let n = kids.len();
    let mut i: usize = 0;
    while i < n
        invariant
            i <= n,
            k.procs@.len() == pre.procs@.len(),
            forall|q: int| 0 <= q < k.procs@.len() ==> (k.procs@[q] is Some <==> pre.live(q)),
            forall|q: int|
                pre.live(q) && q != 0 && q != p && !kids@.subrange(0, i as int).contains(q as usize)
                    ==> #[trigger] k.pcb_of(q) == pre.pcb_of(q),
            k.pcb_of(p as int) == mid.pcb_of(p as int),
            forall|j: int|
                0 <= j < i ==> {
                    let c = #[trigger] kids@[j] as int;
                    let old_pcb = pre.pcb_of(c);
                    let new_pcb = k.pcb_of(c);
                    &&& new_pcb.parent == Some(IDLE_PID)
                    &&& new_pcb.status == old_pcb.status
                    &&& new_pcb.exit_code == old_pcb.exit_code
                    &&& new_pcb.children == old_pcb.children
                    &&& new_pcb.pid == old_pcb.pid
                    &&& new_pcb.task_cx == old_pcb.task_cx
                    &&& new_pcb.ret_val == old_pcb.ret_val
                    &&& new_pcb.image == old_pcb.image
                    &&& new_pcb.coroutines == old_pcb.coroutines
                },
            k.pcb_of(0).children@ == pre.pcb_of(0).children@ + kids@.subrange(0, i as int),
            k.pcb_of(0).status == pre.pcb_of(0).status,
            k.pcb_of(0).parent == pre.pcb_of(0).parent,
            k.pcb_of(0).exit_code == pre.pcb_of(0).exit_code,
            k.pcb_of(0).pid == pre.pcb_of(0).pid,
            k.pcb_of(0).task_cx == pre.pcb_of(0).task_cx,
            k.pcb_of(0).ret_val == pre.pcb_of(0).ret_val,
            k.pcb_of(0).image == pre.pcb_of(0).image,
            k.pcb_of(0).coroutines == pre.pcb_of(0).coroutines,
            k.ready_queue@ == pre.ready_queue@,
            k.current is None,
            k.recycled_pids@ == pre.recycled_pids@,
            k.apps@ == pre.apps@,
            k.halted == pre.halted,
            k.now_ms == pre.now_ms,
        decreases n - i,
    {
        let ghost k0 = *k;
        let c = kids[i];
        proof {
            assert(kids@[i as int] == c);
            assert(pre.live(c as int));
            assert(c != 0 && c != p);
            assert(distinct(pre.pcb_of(p as int).children@));
            if kids@.subrange(0, i as int).contains(c) {
                let j = choose|j: int|
                    0 <= j < i && #[trigger] kids@.subrange(0, i as int)[j] == c;
                assert(kids@[j] == c);
            }
            assert(!kids@.subrange(0, i as int).contains(c));
            assert(k0.pcb_of(c as int) == pre.pcb_of(c as int));
        }
        proof {
            assert(k0.procs@[c as int] is Some);
        }
        let cslot = &mut k.procs[c];
        match cslot {
            Some(cpcb) => {
                cpcb.parent = Some(IDLE_PID);
            },
            None => {
                proof {
                    assert(false);
                }
            },
        }
        let ghost k1 = *k;
        proof {
            assert(pre.live(0));
            assert(k0.procs@[0] is Some);
            assert(k1.procs@[0] == k0.procs@[0]);
        }
        let rslot = &mut k.procs[0];
        match rslot {
            Some(root) => {
                root.children.push(c);
            },
            None => {
                proof {
                    assert(false);
                }
            },
        }
        i = i + 1;
        proof {
            assert(k.pcb_of(0).children@ =~= pre.pcb_of(0).children@ + kids@.subrange(
                0,
                i as int,
            ));
            assert forall|q: int|
                pre.live(q) && q != 0 && q != p && !kids@.subrange(0, i as int).contains(q as usize)
                    implies #[trigger] k.pcb_of(q) == pre.pcb_of(q) by {
                assert(kids@.subrange(0, i as int)[i - 1] == kids@[i - 1]);
                assert(kids@[i - 1] != q as usize);
                if kids@.subrange(0, i - 1).contains(q as usize) {
                    let j = choose|j: int|
                        0 <= j < i - 1 && #[trigger] kids@.subrange(0, i - 1)[j] == q as usize;
                    assert(kids@.subrange(0, i as int)[j] == q as usize);
                    assert(kids@.subrange(0, i as int).contains(q as usize));
                }
                assert(!kids@.subrange(0, i - 1).contains(q as usize));
                assert(k0.pcb_of(q) == pre.pcb_of(q));
                assert(q != c as int);
                assert(k.pcb_of(q) == k0.pcb_of(q));
            }
        }
    }
    proof {
        assert(kids@.subrange(0, n as int) == kids@);
    }
    // schedule whatever the ready FIFO holds next; the outgoing context
    // is discarded, there is nothing to resume
    let ghost before_sched = *k;
    proof {
        assert(exit_reparented(pre, before_sched, p as int, exit_code)) by {
            let kidsv = pre.pcb_of(p as int).children@;
            assert forall|q: int| pre.live(q) implies {
                let old_pcb = pre.pcb_of(q);
                let new_pcb = #[trigger] before_sched.pcb_of(q);
                &&& new_pcb.status == (if q == p {
                    TaskStatus::Zombie
                } else {
                    old_pcb.status
                })
                &&& new_pcb.exit_code == (if q == p {
                    exit_code
                } else {
                    old_pcb.exit_code
                })
                &&& new_pcb.children@ == (if q == p {
                    Seq::<usize>::empty()
                } else if q == 0 {
                    pre.pcb_of(0).children@ + kidsv
                } else {
                    old_pcb.children@
                })
                &&& new_pcb.parent == (if kidsv.contains(q as usize) {
                    Some(IDLE_PID)
                } else {
                    old_pcb.parent
                })
                &&& new_pcb.pid == old_pcb.pid
                &&& new_pcb.task_cx == old_pcb.task_cx
                &&& new_pcb.ret_val == old_pcb.ret_val
                &&& new_pcb.image == old_pcb.image
                &&& new_pcb.coroutines == old_pcb.coroutines
            } by {
                if q == p {
                    assert(!kidsv.contains(p as usize));
                } else if q == 0 {
                    assert(!kidsv.contains(0usize));
                } else if kidsv.contains(q as usize) {
                    let j = choose|j: int| 0 <= j < kidsv.len() && kidsv[j] == q as usize;
                    assert(kids@[j] == q as usize);
                } else {
                    assert(before_sched.pcb_of(q) == pre.pcb_of(q));
                }
            }
        }
        lemma_exit_reparented_wf(pre, before_sched, p as int, exit_code);
    }
    k.run_next_task();
    proof {
        let post = *k;
        lemma_exit_transition_after_sched(pre, before_sched, post, p as int, exit_code);
    }
}

/// The state `s` is `pre` with process `p` turned into a Zombie
/// holding `exit_code`, its children handed to the root, nothing
/// current and everything else untouched: the state exit reaches just
/// before it hands the processor back to the scheduling loop.
pub open spec fn exit_reparented(pre: Kernel, s: Kernel, p: int, exit_code: i32) -> bool {
    let kids = pre.pcb_of(p).children@;
    &&& s.procs@.len() == pre.procs@.len()
    &&& forall|q: int| s.live(q) <==> pre.live(q)
    &&& forall|q: int|
        pre.live(q) ==> {
            let old_pcb = pre.pcb_of(q);
            let new_pcb = #[trigger] s.pcb_of(q);
            &&& new_pcb.status == (if q == p {
                TaskStatus::Zombie
            } else {
                old_pcb.status
            })
            &&& new_pcb.exit_code == (if q == p {
                exit_code
            } else {
                old_pcb.exit_code
            })
            &&& new_pcb.children@ == (if q == p {
                Seq::<usize>::empty()
            } else if q == 0 {
                pre.pcb_of(0).children@ + kids
            } else {
                old_pcb.children@
            })
            &&& new_pcb.parent == (if kids.contains(q as usize) {
                Some(IDLE_PID)
            } else {
                old_pcb.parent
            })
            &&& new_pcb.pid == old_pcb.pid
            &&& new_pcb.task_cx == old_pcb.task_cx
            &&& new_pcb.ret_val == old_pcb.ret_val
            &&& new_pcb.image == old_pcb.image
            &&& new_pcb.coroutines == old_pcb.coroutines
        }
    &&& s.ready_queue@ == pre.ready_queue@
    &&& s.current is None
    &&& s.recycled_pids@ == pre.recycled_pids@
    &&& s.apps@ == pre.apps@
    &&& s.halted == pre.halted
    &&& s.now_ms == pre.now_ms
}

/// After a non-root process exits and its orphans move to the root,
/// the scheduler state is still well-formed: every reparented child is
/// owned by exactly the root's children list and points back at the
/// root.
proof fn lemma_exit_reparented_wf(pre: Kernel, s: Kernel, p: int, exit_code: i32)
    requires
        pre.wf(),
        pre.current == Some(p as usize),
        0 < p < pre.procs@.len(),
        pre.live(p),
        exit_reparented(pre, s, p, exit_code),
    ensures
        s.wf(),
{
    let kids = pre.pcb_of(p).children@;
    assert forall|j: int| 0 <= j < kids.len() implies {
        let c = #[trigger] kids[j] as int;
        &&& pre.live(c)
        &&& c != 0
        &&& c != p
        &&& pre.pcb_of(c).parent == Some(p as usize)
    } by {
        let c = pre.pcb_of(p).children@[j] as int;
        assert(pre.live(c));
        assert(pre.pcb_of(c).parent == Some(p as usize));
        assert(pre.pcb_of(c).parent != Some(c as usize));
    }
    assert(s.procs@[0] is Some) by {
        assert(pre.live(0));
    }
    assert(s.pcb_of(0).parent is None) by {
        assert(!kids.contains(0usize));
    }
    assert forall|q: int| s.live(q) implies (#[trigger] s.pcb_of(q)).pid == q by {
        assert(pre.pcb_of(q).pid == q);
    }
    assert forall|q: int| s.live(q) implies (#[trigger] s.pcb_of(q)).coroutines.wf() by {
        assert(pre.pcb_of(q).coroutines.wf());
    }
    assert forall|q: int| s.live(q) implies (#[trigger] s.pcb_of(q)).parent != Some(
        q as usize,
    ) by {
        assert(pre.pcb_of(q).parent != Some(q as usize));
        if kids.contains(q as usize) {
            assert(q != 0);
        }
    }
    assert forall|q: int, i: int|
        #![trigger s.pcb_of(q).children@[i]]
        s.live(q) && 0 <= i < s.pcb_of(q).children@.len() implies {
        let c = s.pcb_of(q).children@[i] as int;
        &&& s.live(c)
        &&& c != 0
        &&& s.pcb_of(c).parent == Some(q as usize)
    } by {
        if q == p {
            // no children remain
        } else if q == 0 {
            let old_root = pre.pcb_of(0).children@;
            let c = s.pcb_of(0).children@[i] as int;
            if i < old_root.len() {
                assert(c == old_root[i]);
                assert(pre.live(c));
                assert(pre.pcb_of(c).parent == Some(0usize));
                // an old child of the root is not among the orphans
                if kids.contains(c as usize) {
                    let j = choose|j: int| 0 <= j < kids.len() && kids[j] == c as usize;
                    assert(pre.pcb_of(c).parent == Some(p as usize));
                }
                assert(s.pcb_of(c).parent == Some(0usize));
            } else {
                assert(c == kids[i - old_root.len()]);
                assert(kids.contains(c as usize));
                assert(pre.live(c));
                assert(s.pcb_of(c).parent == Some(IDLE_PID));
            }
        } else {
            let c = s.pcb_of(q).children@[i] as int;
            assert(c == pre.pcb_of(q).children@[i]);
            assert(pre.live(c));
            assert(pre.pcb_of(c).parent == Some(q as usize));
            // a child of any other process is not among the orphans
            if kids.contains(c as usize) {
                let j = choose|j: int| 0 <= j < kids.len() && kids[j] == c as usize;
                assert(pre.pcb_of(c).parent == Some(p as usize));
            }
            assert(s.pcb_of(c).parent == Some(q as usize));
        }
    }
    assert forall|q: int| s.live(q) implies distinct((#[trigger] s.pcb_of(q)).children@) by {
        if q == p {
        } else if q == 0 {
            let old_root = pre.pcb_of(0).children@;
            assert(distinct(old_root));
            assert(distinct(kids));
            assert forall|a: int, b: int|
                0 <= a < b < s.pcb_of(0).children@.len() implies s.pcb_of(0).children@[a]
                != s.pcb_of(0).children@[b] by {
                if a < old_root.len() && b >= old_root.len() {
                    // an old child points at the root, an orphan pointed at p
                    let ca = old_root[a];
                    let cb = kids[b - old_root.len()];
                    assert(pre.pcb_of(ca as int).parent == Some(0usize));
                    assert(pre.pcb_of(cb as int).parent == Some(p as usize));
                }
            }
        } else {
            assert(distinct(pre.pcb_of(q).children@));
        }
    }
    assert forall|i: int| 0 <= i < s.recycled_pids@.len() implies {
        let r = #[trigger] s.recycled_pids@[i] as int;
        &&& 0 <= r < s.procs@.len()
        &&& s.procs@[r] is None
    } by {
        let r = pre.recycled_pids@[i] as int;
        assert(pre.procs@[r] is None);
        assert(!pre.live(r));
        assert(!s.live(r));
    }
    assert forall|q: int|
        s.live(q) && (#[trigger] s.pcb_of(q)).status is Running implies s.current == Some(
        q as usize,
    ) by {
        if q != p {
            assert(pre.pcb_of(q).status is Running);
            assert(pre.current == Some(q as usize));
        }
    }
    assert forall|i: int| 0 <= i < s.ready_queue@.len() implies s.live(
        #[trigger] s.ready_queue@[i] as int,
    ) && s.pcb_of(s.ready_queue@[i] as int).status is Ready by {
        let c = s.ready_queue@[i] as int;
        assert(pre.live(c));
        assert(pre.pcb_of(c).status is Ready);
        assert(c != p);
    }
}

/// Law: the root/idle process exiting halts the platform — with
/// success status exactly for exit code zero, failure status for any
/// other code — and leaves the slab, the queues and the processor
/// record untouched.  No further scheduling occurs afterwards: every
/// scheduling operation demands a platform that has not halted.
pub proof fn lemma_root_exit_halts(pre: Kernel, post: Kernel, exit_code: i32)
    requires
        pre.wf(),
        pre.current == Some(IDLE_PID),
        exit_transition(pre, post, exit_code),
    ensures
        post.halted == Some(halt_kind(exit_code)),
        exit_code == 0 <==> post.halted == Some(HaltKind::Success),
        exit_code != 0 <==> post.halted == Some(HaltKind::Failure),
        post.procs@ == pre.procs@,
        post.ready_queue@ == pre.ready_queue@,
        post.current == pre.current,
{
}

/// Creates a coroutine in the given process's cooperative scheduler
/// and returns its identifier.  Creation transfers no control.
pub fn coroutine_create(mgr: &mut CoroutineManager, entry: usize, arg: usize, stack_size: usize)
    -> (cid: usize)
    requires
        old(mgr).wf(),
        old(mgr).coroutines@.len() < crate::coroutine::MAX_COROUTINES,
        old(mgr).next_stack_base + stack_size <= usize::MAX,
    ensures
        final(mgr).wf(),
        CoroutineManager::create_step(*old(mgr), *final(mgr), entry, arg, stack_size, cid),
{
    mgr.create_coroutine(entry, arg, stack_size)
}

/// Yields the processor within the owning process: runs the next
/// ready coroutine.  Failure means exactly that no coroutine was
/// runnable — the ready FIFO was empty.
pub fn coroutine_yield(mgr: &mut CoroutineManager) -> (scheduled: bool)
    requires
        old(mgr).wf(),
    ensures
        final(mgr).wf(),
        scheduled == (old(mgr).ready_queue@.len() > 0),
        CoroutineManager::yield_step(
            *old(mgr),
            *final(mgr),
            if old(mgr).ready_queue@.len() > 0 && old(mgr).current_coroutine is Some {
                Some((old(mgr).current_coroutine->0, old(mgr).ready_queue@[0]))
            } else {
                None
            },
        ),
{
    mgr.switch_to_next_coroutine()
}

/// Blocks the running coroutine of the owning process.  The caller
/// must yield afterwards to actually give up control.
pub fn coroutine_block(mgr: &mut CoroutineManager)
    requires
        old(mgr).wf(),
    ensures
        final(mgr).wf(),
        CoroutineManager::block_step(*old(mgr), *final(mgr)),
{
    mgr.block_current_coroutine()
}

/// Resumes the coroutine with the given identifier: a Blocked target
/// is made runnable and one scheduling step runs at once; any other
/// target is a failure and a no-op.  Reports whether the target was
/// made runnable.
pub fn coroutine_resume(mgr: &mut CoroutineManager, cid: usize) -> (made_runnable: bool)
    requires
        old(mgr).wf(),
    ensures
        final(mgr).wf(),
        CoroutineManager::resume_then_yield(*old(mgr), *final(mgr), cid, made_runnable),
{
    let ghost pre = *old(mgr);
    let eligible = mgr.try_resume_coroutine(cid);
    if eligible {
        let ghost mid = *mgr;
        proof {
            // the ready FIFO now holds the resumed coroutine, so it is
            // not empty
            assert(mid.ready_queue@.len() > 0);
            assert(mid.current_coroutine == pre.current_coroutine);
        }
        let _scheduled = mgr.switch_to_next_coroutine();
        proof {
            assert(CoroutineManager::resume_step(pre, mid, cid));
        }
        true
    } else {
        false
    }
}

/// Composing the reparented state with one iteration of the scheduling
/// loop yields exactly the exit transition.
proof fn lemma_exit_transition_after_sched(
    pre: Kernel,
    s: Kernel,
    post: Kernel,
    p: int,
    exit_code: i32,
)
    requires
        pre.wf(),
        pre.current == Some(p as usize),
        0 < p < pre.procs@.len(),
        pre.live(p),
        exit_reparented(pre, s, p, exit_code),
        s.wf(),
        Kernel::sched_transition(s, post),
    ensures
        exit_transition(pre, post, exit_code),
{
    let kids = pre.pcb_of(p).children@;
    assert forall|i: int| 0 <= i < pre.ready_queue@.len() implies pre.ready_queue@[i]
        != p as usize by {
        assert(pre.pcb_of(pre.ready_queue@[i] as int).status is Ready);
    }
    if pre.ready_queue@.len() == 0 {
        assert forall|q: int| pre.live(q) implies post.pcb_of(q) == s.pcb_of(q) by {}
    } else {
        let f = pre.ready_queue@[0];
        assert(f as int != p);
        assert(post.procs@ == s.slab_with_status(f as int, TaskStatus::Running));
        assert forall|q: int| post.live(q) <==> pre.live(q) by {
            assert(s.live(q) <==> pre.live(q));
            if q == f as int {
                assert(s.live(q));
            }
        }
        assert forall|q: int| pre.live(q) && q != f as int implies post.pcb_of(q) == s.pcb_of(
            q,
        ) by {}
        assert(post.pcb_of(f as int) == Kernel::pcb_with_status(
            s.pcb_of(f as int),
            TaskStatus::Running,
        ));
    }
}
/// Replacing one live process's block with one that keeps its
/// identifier, status, parent and children — so only the saved
/// context, return slot, exit code, image or coroutine scheduler may
/// differ, the scheduler staying well-formed — preserves
/// well-formedness of the whole state.
pub(crate) proof fn lemma_pcb_update_wf(
    pre: Kernel,
    post: Kernel,
    p: int,
    newpcb: TaskControlBlock,
)
    requires
        pre.wf(),
        pre.live(p),
        post.procs@ == pre.procs@.update(p, Some(newpcb)),
        newpcb.pid == pre.pcb_of(p).pid,
        newpcb.status == pre.pcb_of(p).status,
        newpcb.parent == pre.pcb_of(p).parent,
        newpcb.children == pre.pcb_of(p).children,
        newpcb.coroutines.wf(),
        post.ready_queue@ == pre.ready_queue@,
        post.current == pre.current,
        post.recycled_pids@ == pre.recycled_pids@,
    ensures
        post.wf(),
        post.procs@.len() == pre.procs@.len(),
        forall|q: int| post.live(q) <==> pre.live(q),
        forall|q: int| pre.live(q) && q != p ==> post.pcb_of(q) == pre.pcb_of(q),
        post.pcb_of(p) == newpcb,
{
    assert forall|q: int| post.live(q) implies (#[trigger] post.pcb_of(q)).pid == q by {
        assert(pre.pcb_of(q).pid == q);
    }
    assert forall|q: int| post.live(q) implies (#[trigger] post.pcb_of(q)).coroutines.wf() by {
        if q != p {
            assert(pre.pcb_of(q).coroutines.wf());
        }
    }
    assert forall|q: int| post.live(q) implies (#[trigger] post.pcb_of(q)).parent != Some(
        q as usize,
    ) by {
        assert(pre.pcb_of(q).parent != Some(q as usize));
    }
    assert forall|q: int, i: int|
        #![trigger post.pcb_of(q).children@[i]]
        post.live(q) && 0 <= i < post.pcb_of(q).children@.len() implies {
        let c = post.pcb_of(q).children@[i] as int;
        &&& post.live(c)
        &&& c != 0
        &&& post.pcb_of(c).parent == Some(q as usize)
    } by {
        assert(post.pcb_of(q).children@ == pre.pcb_of(q).children@);
        let c = pre.pcb_of(q).children@[i] as int;
        assert(pre.live(c));
        assert(pre.pcb_of(c).parent == Some(q as usize));
        assert(post.pcb_of(c).parent == pre.pcb_of(c).parent);
    }
    assert forall|q: int| post.live(q) implies distinct(
        (#[trigger] post.pcb_of(q)).children@,
    ) by {
        assert(post.pcb_of(q).children@ == pre.pcb_of(q).children@);
        assert(distinct(pre.pcb_of(q).children@));
    }
    assert forall|i: int| 0 <= i < post.recycled_pids@.len() implies {
        let s = #[trigger] post.recycled_pids@[i] as int;
        &&& 0 <= s < post.procs@.len()
        &&& post.procs@[s] is None
    } by {
        let s = pre.recycled_pids@[i] as int;
        assert(pre.procs@[s] is None);
        assert(s != p);
    }
    assert forall|q: int|
        post.live(q) && (#[trigger] post.pcb_of(q)).status is Running implies post.current == Some(
        q as usize,
    ) by {
        assert(pre.pcb_of(q).status is Running);
    }
    assert forall|i: int| 0 <= i < post.ready_queue@.len() implies post.live(
        #[trigger] post.ready_queue@[i] as int,
    ) && post.pcb_of(post.ready_queue@[i] as int).status is Ready by {
        let c = post.ready_queue@[i] as int;
        assert(pre.live(c));
        assert(pre.pcb_of(c).status is Ready);
        assert(post.pcb_of(c).status == pre.pcb_of(c).status);
    }
}

/// A state with the same slab and the same recycled identifiers as a
/// structurally well-formed one is structurally well-formed itself.
pub(crate) proof fn lemma_links_preserved(pre: Kernel, post: Kernel)
    requires
        pre.links_wf(),
        post.procs@ == pre.procs@,
        post.recycled_pids@ == pre.recycled_pids@,
    ensures
        post.links_wf(),
        forall|q: int| post.live(q) <==> pre.live(q),
        forall|q: int| pre.live(q) ==> post.pcb_of(q) == pre.pcb_of(q),
{
    assert forall|q: int| pre.live(q) implies post.pcb_of(q) == pre.pcb_of(q) by {}
    assert forall|q: int| post.live(q) implies (#[trigger] post.pcb_of(q)).pid == q by {
        assert(pre.pcb_of(q).pid == q);
    }
    assert forall|q: int| post.live(q) implies (#[trigger] post.pcb_of(q)).coroutines.wf() by {
        assert(pre.pcb_of(q).coroutines.wf());
    }
    assert forall|q: int| post.live(q) implies (#[trigger] post.pcb_of(q)).parent != Some(
        q as usize,
    ) by {
        assert(pre.pcb_of(q).parent != Some(q as usize));
    }
    assert forall|q: int, i: int|
        #![trigger post.pcb_of(q).children@[i]]
        post.live(q) && 0 <= i < post.pcb_of(q).children@.len() implies {
        let c = post.pcb_of(q).children@[i] as int;
        &&& post.live(c)
        &&& c != 0
        &&& post.pcb_of(c).parent == Some(q as usize)
    } by {
        assert(post.pcb_of(q).children@ == pre.pcb_of(q).children@);
        let c = pre.pcb_of(q).children@[i] as int;
        assert(pre.live(c));
        assert(pre.pcb_of(c).parent == Some(q as usize));
    }
    assert forall|q: int| post.live(q) implies distinct(
        (#[trigger] post.pcb_of(q)).children@,
    ) by {
        assert(distinct(pre.pcb_of(q).children@));
    }
    assert forall|i: int| 0 <= i < post.recycled_pids@.len() implies {
        let s = #[trigger] post.recycled_pids@[i] as int;
        &&& 0 <= s < post.procs@.len()
        &&& post.procs@[s] is None
    } by {
        let s = pre.recycled_pids@[i] as int;
        assert(pre.procs@[s] is None);
    }
}

/// Replacing only the status of one live process preserves the
/// structural well-formedness of the slab, since no link, identifier
/// or queue of recycled slots is touched.
proof fn lemma_status_update_links(pre: Kernel, post: Kernel, p: int, st: TaskStatus)
    requires
        pre.links_wf(),
        pre.live(p),
        post.procs@ == pre.slab_with_status(p, st),
        post.recycled_pids@ == pre.recycled_pids@,
    ensures
        post.links_wf(),
        post.procs@.len() == pre.procs@.len(),
        forall|q: int| post.live(q) <==> pre.live(q),
        forall|q: int| pre.live(q) && q != p ==> post.pcb_of(q) == pre.pcb_of(q),
        post.pcb_of(p) == Kernel::pcb_with_status(pre.pcb_of(p), st),
{
    assert forall|q: int| post.live(q) implies (#[trigger] post.pcb_of(q)).pid == q by {
        assert(pre.pcb_of(q).pid == q);
    }
    assert forall|q: int| post.live(q) implies (#[trigger] post.pcb_of(q)).coroutines.wf() by {
        assert(pre.pcb_of(q).coroutines.wf());
        assert(post.pcb_of(q).coroutines == pre.pcb_of(q).coroutines);
    }
    assert forall|q: int| post.live(q) implies (#[trigger] post.pcb_of(q)).parent != Some(
        q as usize,
    ) by {
        assert(pre.pcb_of(q).parent != Some(q as usize));
        assert(post.pcb_of(q).parent == pre.pcb_of(q).parent);
    }
    assert forall|q: int, i: int|
        #![trigger post.pcb_of(q).children@[i]]
        post.live(q) && 0 <= i < post.pcb_of(q).children@.len() implies {
        let c = post.pcb_of(q).children@[i] as int;
        &&& post.live(c)
        &&& c != 0
        &&& post.pcb_of(c).parent == Some(q as usize)
    } by {
        assert(post.pcb_of(q).children@ == pre.pcb_of(q).children@);
        let c = pre.pcb_of(q).children@[i] as int;
        assert(pre.live(c));
        assert(pre.pcb_of(c).parent == Some(q as usize));
        assert(post.pcb_of(c).parent == pre.pcb_of(c).parent);
    }
    assert forall|q: int| post.live(q) implies distinct(
        (#[trigger] post.pcb_of(q)).children@,
    ) by {
        assert(post.pcb_of(q).children@ == pre.pcb_of(q).children@);
        assert(distinct(pre.pcb_of(q).children@));
    }
    assert forall|i: int| 0 <= i < post.recycled_pids@.len() implies {
        let s = #[trigger] post.recycled_pids@[i] as int;
        &&& 0 <= s < post.procs@.len()
        &&& post.procs@[s] is None
    } by {
        let s = pre.recycled_pids@[i] as int;
        assert(pre.procs@[s] is None);
        assert(s != p);
    }
}

} // verus!
