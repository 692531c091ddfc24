//! Coroutine control blocks and the cooperative per-process scheduler.
//!
//! A coroutine is a user-level flow of control layered inside a process
//! and sharing its address space.  Scheduling is purely cooperative:
//! a coroutine runs until it yields, blocks or exits, and the ready
//! queue is a strict FIFO.  Every process owns one [`CoroutineManager`];
//! coroutines are scoped to their owner and are never visible to any
//! other process.
//!
//! Status machine: Ready → (scheduled) → Running → (yield) → Ready;
//! Running → (block) → Blocked → (resume) → Ready;
//! Running → (exit) → Exited (terminal).  A registry entry persists
//! after Exited and its stack region is never reclaimed: the stack
//! cursor only advances.

use vstd::prelude::*;
use crate::context::TaskContext;
use crate::context::TRAP_RETURN_ENTRY;
use crate::distinct;
use std::collections::VecDeque;

verus! {

/// Largest number of coroutines one manager will register; keeps every
/// identifier representable as a non-negative `isize` syscall result.
pub const MAX_COROUTINES: usize = 0x7fff_ffff;

/// First stack base handed out by a fresh manager; coroutine stacks are
/// bump-allocated upward from here inside the owner's address space.
pub const COROUTINE_STACK_BASE: usize = 0x8000_0000;

/// Status of a coroutine.
#[derive(Clone, Copy, PartialEq, Eq, Structural, Debug)]
pub enum CoroutineStatus {
    /// Eligible to run; sits in the owner's ready queue.
    Ready,
    /// The coroutine the owner is currently executing (at most one).
    Running,
    /// Waiting for an explicit resume; sits in the blocked set.
    Blocked,
    /// Finished; terminal, the registry entry is not reclaimed.
    Exited,
}

/// Mutable bookkeeping of one coroutine.
pub struct CoroutineInner {
    /// Current status.
    pub status: CoroutineStatus,
    /// Saved execution state; meaningful only while not Running.
    pub context: TaskContext,
    /// Lowest address of this coroutine's stack region.
    pub stack_base: usize,
    /// Size of the stack region in bytes.
    pub stack_size: usize,
    /// Entry function address, consulted once by the trampoline.
    pub entry: usize,
    /// Argument handed to the entry function by the trampoline.
    pub arg: usize,
}

/// One coroutine: its identifier and its bookkeeping.
pub struct CoroutineControlBlock {
    /// Identifier, unique for the lifetime of the owning process,
    /// allocated monotonically from 1 and never reused.
    pub cid: usize,
    /// The mutable bookkeeping.
    pub inner: CoroutineInner,
}

impl CoroutineControlBlock {
    /// Builds the control block of a freshly created coroutine: status
    /// Ready, stack region `[stack_base, stack_base + stack_size)`, and
    /// an initial context that resumes at the trampoline stub on the top
    /// of that stack.
    pub fn new(cid: usize, entry: usize, arg: usize, stack_size: usize, stack_base: usize) -> (c:
        Self)
        requires
            stack_base + stack_size <= usize::MAX,
        ensures
            c.cid == cid,
            c.inner.status is Ready,
            c.inner.stack_base == stack_base,
            c.inner.stack_size == stack_size,
            c.inner.entry == entry,
            c.inner.arg == arg,
            c.inner.context.ra == TRAP_RETURN_ENTRY,
            c.inner.context.sp == stack_base + stack_size,
            c.inner.context.saved_regs_zero(),
    {
        let stack_top = stack_base + stack_size;
        Self {
            cid,
            inner: CoroutineInner {
                status: CoroutineStatus::Ready,
                context: TaskContext::goto_trap_return(stack_top),
                stack_base,
                stack_size,
                entry,
                arg,
            },
        }
    }

    /// Exclusive access to the bookkeeping.  The `&mut` borrow is the
    /// single-writer exclusive-access token: the borrow rules enforce
    /// statically what a runtime-checked guard would panic on.
    pub fn inner_exclusive_access(&mut self) -> (inner: &mut CoroutineInner)
        ensures
            *inner == old(self).inner,
            *final(self) == (CoroutineControlBlock { cid: old(self).cid, inner: *final(inner) }),
    {
        &mut self.inner
    }
}

/// The cooperative scheduler one process owns: the master registry of
/// every coroutine it created, the ready FIFO, the blocked set, the
/// identity of the running coroutine, and the stack-allocation cursor.
pub struct CoroutineManager {
    /// Registry of all coroutines ever created, in creation order; the
    /// block with identifier `cid` sits at index `cid - 1`.  Entries
    /// persist after Exited.
    pub coroutines: Vec<CoroutineControlBlock>,
    /// Identifier of the Running coroutine, if any.
    pub current_coroutine: Option<usize>,
    /// FIFO of Ready coroutine identifiers; front is scheduled next.
    pub ready_queue: VecDeque<usize>,
    /// Identifiers of Blocked coroutines, awaiting resume.
    pub blocked_queue: Vec<usize>,
    /// Next stack base to hand out; only ever advances.
    pub next_stack_base: usize,
}

impl CoroutineManager {
    /// The identifier is one a coroutine of this manager holds.
    pub open spec fn valid_cid(self, cid: int) -> bool {
        1 <= cid <= self.coroutines@.len()
    }

    /// Status of the coroutine with the given identifier.
    pub open spec fn status_of(self, cid: int) -> CoroutineStatus {
        self.coroutines@[cid - 1].inner.status
    }

    /// The control block with the given identifier.
    pub open spec fn ccb_of(self, cid: int) -> CoroutineControlBlock {
        self.coroutines@[cid - 1]
    }

    /// Upper bound of the stack region of the coroutine at registry
    /// index `k`.
    pub open spec fn stack_end(self, k: int) -> int {
        self.coroutines@[k].inner.stack_base + self.coroutines@[k].inner.stack_size
    }

    /// Well-formedness: identifiers are the registry positions shifted
    /// by one; the queues hold exactly the Ready respectively Blocked
    /// coroutines, each once; at most one coroutine is Running and it is
    /// the recorded current one; stack regions sit below the cursor in
    /// creation order.
    pub open spec fn wf(self) -> bool {
        &&& self.coroutines@.len() <= MAX_COROUTINES
        &&& forall|k: int|
            0 <= k < self.coroutines@.len() ==> (#[trigger] self.coroutines@[k]).cid == k + 1
        &&& match self.current_coroutine {
            Some(c) => self.valid_cid(c as int) && self.status_of(c as int) is Running,
            None => true,
        }
        &&& forall|k: int|
            0 <= k < self.coroutines@.len() && (#[trigger] self.coroutines@[k]).inner.status
                is Running ==> self.current_coroutine == Some((k + 1) as usize)
        &&& forall|i: int|
            0 <= i < self.ready_queue@.len() ==> self.valid_cid(
                #[trigger] self.ready_queue@[i] as int,
            ) && self.status_of(self.ready_queue@[i] as int) is Ready
        &&& distinct(self.ready_queue@)
        &&& forall|i: int|
            0 <= i < self.blocked_queue@.len() ==> self.valid_cid(
                #[trigger] self.blocked_queue@[i] as int,
            ) && self.status_of(self.blocked_queue@[i] as int) is Blocked
        &&& distinct(self.blocked_queue@)
        &&& forall|k: int|
            0 <= k < self.coroutines@.len() && (#[trigger] self.coroutines@[k]).inner.status
                is Ready ==> self.ready_queue@.contains((k + 1) as usize)
        &&& forall|k: int|
            0 <= k < self.coroutines@.len() && (#[trigger] self.coroutines@[k]).inner.status
                is Blocked ==> self.blocked_queue@.contains((k + 1) as usize)
        &&& forall|k: int|
            0 <= k < self.coroutines@.len() ==> #[trigger] self.stack_end(k) <= (if k + 1
                < self.coroutines@.len() {
                self.coroutines@[k + 1].inner.stack_base as int
            } else {
                self.next_stack_base as int
            })
    }

    /// The given control block with its status replaced and every other
    /// field kept.
    pub open spec fn with_status(c: CoroutineControlBlock, status: CoroutineStatus)
        -> CoroutineControlBlock {
        CoroutineControlBlock {
            cid: c.cid,
            inner: CoroutineInner {
                status,
                context: c.inner.context,
                stack_base: c.inner.stack_base,
                stack_size: c.inner.stack_size,
                entry: c.inner.entry,
                arg: c.inner.arg,
            },
        }
    }

    /// The registry with the status of coroutine `cid` replaced.
    pub open spec fn registry_with_status(self, cid: int, status: CoroutineStatus)
        -> Seq<CoroutineControlBlock> {
        self.coroutines@.update(cid - 1, Self::with_status(self.ccb_of(cid), status))
    }

    /// One scheduling step of the cooperative scheduler, relating the
    /// manager before (`pre`) and after (`post`) with the pair of
    /// identifiers the step hands to the switch primitive (`r`).
    ///
    /// With an empty ready FIFO nothing changes.  Otherwise the front of
    /// the FIFO is promoted to Running and recorded as current; a
    /// previously Running coroutine is demoted to Ready and re-enqueued
    /// at the tail.  When no coroutine was current — either none ever
    /// ran, or the caller moved the running one out-of-band to Blocked
    /// or Exited and cleared it first — there is no outgoing context, so
    /// no pair is returned and the step does not count as a switch.
    pub open spec fn yield_step(pre: Self, post: Self, r: Option<(usize, usize)>) -> bool {
        if pre.ready_queue@.len() == 0 {
            post == pre && r is None
        } else {
            let f = pre.ready_queue@[0];
            match pre.current_coroutine {
                None => {
                    &&& r is None
                    &&& post.coroutines@ == pre.registry_with_status(
                        f as int,
                        CoroutineStatus::Running,
                    )
                    &&& post.current_coroutine == Some(f)
                    &&& post.ready_queue@ == pre.ready_queue@.subrange(
                        1,
                        pre.ready_queue@.len() as int,
                    )
                    &&& post.blocked_queue@ == pre.blocked_queue@
                    &&& post.next_stack_base == pre.next_stack_base
                },
                Some(c) => {
                    &&& r == Some((c, f))
                    &&& post.coroutines@ == pre.registry_with_status(
                        c as int,
                        CoroutineStatus::Ready,
                    ).update(f - 1, Self::with_status(pre.ccb_of(f as int), CoroutineStatus::Running))
                    &&& post.current_coroutine == Some(f)
                    &&& post.ready_queue@ == pre.ready_queue@.subrange(
                        1,
                        pre.ready_queue@.len() as int,
                    ).push(c)
                    &&& post.blocked_queue@ == pre.blocked_queue@
                    &&& post.next_stack_base == pre.next_stack_base
                },
            }
        }
    }

    /// A fresh manager: no coroutines, nothing running, empty queues,
    /// the stack cursor at its initial base.
    pub fn new() -> (m: Self)
        ensures
            m.wf(),
            m.coroutines@.len() == 0,
            m.current_coroutine is None,
            m.ready_queue@.len() == 0,
            m.blocked_queue@.len() == 0,
            m.next_stack_base == COROUTINE_STACK_BASE,
    {
        Self {
            coroutines: Vec::new(),
            current_coroutine: None,
            ready_queue: VecDeque::new(),
            blocked_queue: Vec::new(),
            next_stack_base: COROUTINE_STACK_BASE,
        }
    }

    /// What creating a coroutine does: the next identifier is
    /// allocated, a stack region disjoint from every earlier one is
    /// carved off the cursor, the new block is registered Ready and
    /// appended to the ready FIFO, and nothing else moves.
    pub open spec fn create_step(
        pre: Self,
        post: Self,
        entry: usize,
        arg: usize,
        stack_size: usize,
        cid: usize,
    ) -> bool {
        &&& cid == pre.coroutines@.len() + 1
        &&& post.coroutines@.len() == pre.coroutines@.len() + 1
        &&& forall|k: int|
            0 <= k < pre.coroutines@.len() ==> post.coroutines@[k] == pre.coroutines@[k]
        &&& post.ccb_of(cid as int).cid == cid
        &&& post.status_of(cid as int) is Ready
        &&& post.ccb_of(cid as int).inner.stack_base == pre.next_stack_base
        &&& post.ccb_of(cid as int).inner.stack_size == stack_size
        &&& post.ccb_of(cid as int).inner.entry == entry
        &&& post.ccb_of(cid as int).inner.arg == arg
        &&& post.ready_queue@ == pre.ready_queue@.push(cid)
        &&& post.blocked_queue@ == pre.blocked_queue@
        &&& post.current_coroutine == pre.current_coroutine
        &&& post.next_stack_base == pre.next_stack_base + stack_size
    }

    /// Creates a coroutine: allocates the next identifier, bump-allocates
    /// a stack region disjoint from every earlier one, registers the
    /// block and appends it to the ready FIFO.  Returns the identifier.
    /// Creation alone transfers no control.
    pub fn create_coroutine(&mut self, entry: usize, arg: usize, stack_size: usize) -> (cid:
        usize)
        requires
            old(self).wf(),
            old(self).coroutines@.len() < MAX_COROUTINES,
            old(self).next_stack_base + stack_size <= usize::MAX,
        ensures
            final(self).wf(),
            Self::create_step(*old(self), *final(self), entry, arg, stack_size, cid),
    {
        let stack_base = self.next_stack_base;
        self.next_stack_base = self.next_stack_base + stack_size;
        let cid = self.coroutines.len() + 1;
        let ccb = CoroutineControlBlock::new(cid, entry, arg, stack_size, stack_base);
        self.coroutines.push(ccb);
        self.ready_queue.push_back(cid);
        proof {
            let post = *self;
            let pre = *old(self);
            let n = pre.coroutines@.len() as int;
            assert forall|i: int| 0 <= i < post.ready_queue@.len() implies post.valid_cid(
                #[trigger] post.ready_queue@[i] as int,
            ) && post.status_of(post.ready_queue@[i] as int) is Ready by {
                if i < pre.ready_queue@.len() {
                    assert(pre.valid_cid(pre.ready_queue@[i] as int));
                }
            }
            assert(distinct(post.ready_queue@)) by {
                assert forall|i: int, j: int|
                    0 <= i < j < post.ready_queue@.len() implies post.ready_queue@[i]
                    != post.ready_queue@[j] by {
                    if j < pre.ready_queue@.len() {
                        assert(distinct(pre.ready_queue@));
                    } else {
                        // the new identifier exceeds every one already queued
                        if i < pre.ready_queue@.len() {
                            assert(pre.valid_cid(pre.ready_queue@[i] as int));
                        }
                    }
                }
            }
            assert forall|k: int|
                0 <= k < post.coroutines@.len() && (#[trigger] post.coroutines@[k]).inner.status
                    is Ready implies post.ready_queue@.contains((k + 1) as usize) by {
                if k < n {
                    assert(pre.ready_queue@.contains((k + 1) as usize));
                    let w = choose|w: int|
                        0 <= w < pre.ready_queue@.len() && pre.ready_queue@[w] == (k + 1) as usize;
                    assert(post.ready_queue@[w] == (k + 1) as usize);
                } else {
                    assert(post.ready_queue@[post.ready_queue@.len() - 1] == (k + 1) as usize);
                }
            }
            assert forall|k: int|
                0 <= k < post.coroutines@.len() && (#[trigger] post.coroutines@[k]).inner.status
                    is Blocked implies post.blocked_queue@.contains((k + 1) as usize) by {
                assert(k < n);
            }
            assert forall|k: int| 0 <= k < post.coroutines@.len() implies #[trigger] post.stack_end(
                k,
            ) <= (if k + 1 < post.coroutines@.len() {
                post.coroutines@[k + 1].inner.stack_base as int
            } else {
                post.next_stack_base as int
            }) by {
                if k < n {
                    assert(pre.stack_end(k) <= (if k + 1 < n {
                        pre.coroutines@[k + 1].inner.stack_base as int
                    } else {
                        pre.next_stack_base as int
                    }));
                }
            }
        }
        cid
    }

    /// Prepares one scheduling step: demotes the running coroutine (if
    /// one is recorded) to the ready FIFO's tail, promotes the FIFO's
    /// front to Running and records it as current.  Returns the pair
    /// (previous, next) of identifiers to switch between, or `None` when
    /// the FIFO was empty or no coroutine was current — a coroutine
    /// recorded as current is always Running here, because the
    /// block-then-yield and exit-then-yield protocols clear `current`
    /// before yielding.
    pub fn prepare_next_coroutine(&mut self) -> (r: Option<(usize, usize)>)
        requires
            old(self).wf(),
        ensures
            final(self).wf(),
            Self::yield_step(*old(self), *final(self), r),
    {
        if self.ready_queue.len() == 0 {
            return None;
        }
        let ghost pre = *old(self);
        // demote the running coroutine, if any, to the tail of the FIFO
        let prev: Option<usize> = self.current_coroutine;
        match prev {
            Some(c) => {
                proof {
                    assert(pre.valid_cid(c as int));
                    assert forall|i: int| 0 <= i < pre.ready_queue@.len() implies pre.ready_queue@[i]
                        != c by {
                        assert(pre.status_of(pre.ready_queue@[i] as int) is Ready);
                    }
                }
                let idx = c - 1;
                let ccb = &mut self.coroutines[idx];
                ccb.inner.status = CoroutineStatus::Ready;
                self.ready_queue.push_back(c);
                proof {
                    assert(self.coroutines@ == pre.registry_with_status(
                        c as int,
                        CoroutineStatus::Ready,
                    ));
                }
            },
            None => {},
        }
        let next = match self.ready_queue.pop_front() {
            Some(x) => x,
            None => {
                proof {
                    assert(false);
                }
                0
            },
        };
        proof {
            assert(next == pre.ready_queue@[0]);
            assert(pre.valid_cid(next as int));
        }
        let nidx = next - 1;
        let ccb = &mut self.coroutines[nidx];
        ccb.inner.status = CoroutineStatus::Running;
        self.current_coroutine = Some(next);
        proof {
            let post = *self;
            let ghost r: Option<(usize, usize)> = if prev is Some {
                Some((prev->0, next))
            } else {
                None
            };
            match prev {
                Some(c) => {
                    assert(post.coroutines@ =~= pre.registry_with_status(
                        c as int,
                        CoroutineStatus::Ready,
                    ).update(
                        next - 1,
                        Self::with_status(pre.ccb_of(next as int), CoroutineStatus::Running),
                    ));
                    assert(post.ready_queue@ =~= pre.ready_queue@.subrange(
                        1,
                        pre.ready_queue@.len() as int,
                    ).push(c));
                },
                None => {
                    assert(post.coroutines@ =~= pre.registry_with_status(
                        next as int,
                        CoroutineStatus::Running,
                    ));
                    assert(post.ready_queue@ =~= pre.ready_queue@.subrange(
                        1,
                        pre.ready_queue@.len() as int,
                    ));
                },
            }
            assert(Self::yield_step(pre, post, r));
            lemma_yield_step_wf(pre, post, r);
        }
        match prev {
            Some(c) => Some((c, next)),
            None => None,
        }
    }

    /// Performs one cooperative scheduling step and reports whether a
    /// ready coroutine was there to run: failure means exactly that the
    /// ready FIFO was empty.  The step seats the FIFO's front even when
    /// no coroutine was current — then there is no outgoing context to
    /// save and nothing is handed to the switch primitive, but the
    /// newcomer runs all the same.  The physical register swap between
    /// two prepared contexts is the platform switch primitive's job,
    /// below this model; the step's bookkeeping is exactly
    /// [`CoroutineManager::yield_step`].
    pub fn switch_to_next_coroutine(&mut self) -> (scheduled: bool)
        requires
            old(self).wf(),
        ensures
            final(self).wf(),
            scheduled == (old(self).ready_queue@.len() > 0),
            Self::yield_step(
                *old(self),
                *final(self),
                if old(self).ready_queue@.len() > 0 && old(self).current_coroutine is Some {
                    Some((old(self).current_coroutine->0, old(self).ready_queue@[0]))
                } else {
                    None
                },
            ),
    {
        let scheduled = self.ready_queue.len() > 0;
        let _pair = self.prepare_next_coroutine();
        scheduled
    }

    /// What blocking the running coroutine does: it is marked Blocked
    /// and moves from `current` into the blocked set; without a running
    /// coroutine nothing changes.
    pub open spec fn block_step(pre: Self, post: Self) -> bool {
        match pre.current_coroutine {
            Some(c) => {
                &&& post.coroutines@ == pre.registry_with_status(c as int, CoroutineStatus::Blocked)
                &&& post.current_coroutine is None
                &&& post.ready_queue@ == pre.ready_queue@
                &&& post.blocked_queue@ == pre.blocked_queue@.push(c)
                &&& post.next_stack_base == pre.next_stack_base
            },
            None => post == pre,
        }
    }

    /// Resuming followed by one scheduling step, as the resume syscall
    /// performs it: a target that is not Blocked is ineligible and
    /// nothing changes at all; a Blocked target moves to the ready
    /// FIFO's tail — it is made runnable, which is what success
    /// reports — and a scheduling step runs, which always finds the
    /// FIFO nonempty and seats its front.
    pub open spec fn resume_then_yield(pre: Self, post: Self, cid: usize, made_runnable: bool)
        -> bool {
        let eligible = pre.valid_cid(cid as int) && pre.status_of(cid as int) is Blocked;
        &&& made_runnable == eligible
        &&& if eligible {
            exists|mid: Self|
                {
                    &&& #[trigger] Self::resume_step(pre, mid, cid)
                    &&& Self::yield_step(
                        mid,
                        post,
                        if pre.current_coroutine is Some {
                            Some((mid.current_coroutine->0, mid.ready_queue@[0]))
                        } else {
                            None
                        },
                    )
                }
        } else {
            post == pre
        }
    }

    /// Marks the running coroutine Blocked, moves it into the blocked
    /// set and clears `current`.  Blocking alone transfers no control:
    /// the caller must yield afterwards to actually give up the
    /// processor.  Without a running coroutine this is a no-op.
    pub fn block_current_coroutine(&mut self)
        requires
            old(self).wf(),
        ensures
            final(self).wf(),
            Self::block_step(*old(self), *final(self)),
    {
        let ghost pre = *old(self);
        match self.current_coroutine {
            Some(c) => {
                proof {
                    assert(pre.valid_cid(c as int));
                    assert forall|i: int|
                        0 <= i < pre.blocked_queue@.len() implies pre.blocked_queue@[i] != c by {
                        assert(pre.status_of(pre.blocked_queue@[i] as int) is Blocked);
                    }
                    assert forall|i: int|
                        0 <= i < pre.ready_queue@.len() implies pre.ready_queue@[i] != c by {
                        assert(pre.status_of(pre.ready_queue@[i] as int) is Ready);
                    }
                }
                let idx = c - 1;
                let ccb = &mut self.coroutines[idx];
                ccb.inner.status = CoroutineStatus::Blocked;
                self.blocked_queue.push(c);
                self.current_coroutine = None;
                proof {
                    let post = *self;
                    assert(post.coroutines@ =~= pre.registry_with_status(
                        c as int,
                        CoroutineStatus::Blocked,
                    ));
                    assert forall|k: int|
                        0 <= k < post.coroutines@.len() && (
                        #[trigger] post.coroutines@[k]).inner.status
                            is Blocked implies post.blocked_queue@.contains((k + 1) as usize) by {
                        if k + 1 == c {
                            assert(post.blocked_queue@[post.blocked_queue@.len() - 1] == c);
                        } else {
                            assert(pre.coroutines@[k].inner.status is Blocked);
                            let w = choose|w: int|
                                0 <= w < pre.blocked_queue@.len() && pre.blocked_queue@[w] == (k
                                    + 1) as usize;
                            assert(post.blocked_queue@[w] == (k + 1) as usize);
                        }
                    }
                    assert forall|k: int|
                        0 <= k < post.coroutines@.len() && (
                        #[trigger] post.coroutines@[k]).inner.status
                            is Ready implies post.ready_queue@.contains((k + 1) as usize) by {
                        assert(pre.coroutines@[k].inner.status is Ready);
                    }
                    assert forall|k: int|
                        0 <= k < post.coroutines@.len() implies #[trigger] post.stack_end(k) <= (if
                        k + 1 < post.coroutines@.len() {
                        post.coroutines@[k + 1].inner.stack_base as int
                    } else {
                        post.next_stack_base as int
                    }) by {
                        assert(pre.stack_end(k) == post.stack_end(k));
                        assert(pre.stack_end(k) <= (if k + 1 < pre.coroutines@.len() {
                            pre.coroutines@[k + 1].inner.stack_base as int
                        } else {
                            pre.next_stack_base as int
                        }));
                    }
                }
            },
            None => {},
        }
    }

    /// Moves the Blocked coroutine with the given identifier to the
    /// ready FIFO's tail and marks it Ready.  Reports failure, changing
    /// nothing, when no Blocked coroutine has that identifier.  Waking a
    /// coroutine only makes it runnable; it runs when the FIFO brings it
    /// to the front.
    pub fn unblock_coroutine(&mut self, cid: usize) -> (woke: bool)
        requires
            old(self).wf(),
        ensures
            final(self).wf(),
            woke == old(self).blocked_queue@.contains(cid),
            woke == (old(self).valid_cid(cid as int) && old(self).status_of(cid as int)
                is Blocked),
            if woke {
                &&& final(self).coroutines@ == old(self).registry_with_status(
                    cid as int,
                    CoroutineStatus::Ready,
                )
                &&& final(self).current_coroutine == old(self).current_coroutine
                &&& final(self).ready_queue@ == old(self).ready_queue@.push(cid)
                &&& exists|i: int|
                    {
                        &&& 0 <= i < old(self).blocked_queue@.len()
                        &&& old(self).blocked_queue@[i] == cid
                        &&& final(self).blocked_queue@ == old(self).blocked_queue@.remove(i)
                    }
                &&& final(self).next_stack_base == old(self).next_stack_base
            } else {
                *final(self) == *old(self)
            },
    {
        let ghost pre = *old(self);
        proof {
            if pre.blocked_queue@.contains(cid) {
                let w = choose|w: int|
                    0 <= w < pre.blocked_queue@.len() && pre.blocked_queue@[w] == cid;
                assert(pre.status_of(cid as int) is Blocked);
            } else if pre.valid_cid(cid as int) && pre.status_of(cid as int) is Blocked {
                assert(pre.blocked_queue@.contains(cid));
            }
        }
        match find_in_queue(&self.blocked_queue, cid) {
            Some(found) => {
                proof {
                    assert(pre.valid_cid(cid as int));
                    assert forall|i: int|
                        0 <= i < pre.ready_queue@.len() implies pre.ready_queue@[i] != cid by {
                        assert(pre.status_of(pre.ready_queue@[i] as int) is Ready);
                    }
                    assert(pre.current_coroutine != Some(cid));
                }
                let idx = cid - 1;
                let ccb = &mut self.coroutines[idx];
                ccb.inner.status = CoroutineStatus::Ready;
                self.blocked_queue.remove(found);
                self.ready_queue.push_back(cid);
                proof {
                    let post = *self;
                    assert(post.coroutines@ =~= pre.registry_with_status(
                        cid as int,
                        CoroutineStatus::Ready,
                    ));
                    assert forall|i: int|
                        0 <= i < post.blocked_queue@.len() implies post.valid_cid(
                        #[trigger] post.blocked_queue@[i] as int,
                    ) && post.status_of(post.blocked_queue@[i] as int) is Blocked by {
                        if i < found {
                            assert(post.blocked_queue@[i] == pre.blocked_queue@[i]);
                        } else {
                            assert(post.blocked_queue@[i] == pre.blocked_queue@[i + 1]);
                        }
                    }
                    assert(distinct(post.blocked_queue@)) by {
                        assert forall|i: int, j: int|
                            0 <= i < j < post.blocked_queue@.len() implies post.blocked_queue@[i]
                            != post.blocked_queue@[j] by {
                            let pi = if i < found {
                                i
                            } else {
                                i + 1
                            };
                            let pj = if j < found {
                                j
                            } else {
                                j + 1
                            };
                            assert(post.blocked_queue@[i] == pre.blocked_queue@[pi]);
                            assert(post.blocked_queue@[j] == pre.blocked_queue@[pj]);
                        }
                    }
                    assert forall|k: int|
                        0 <= k < post.coroutines@.len() && (
                        #[trigger] post.coroutines@[k]).inner.status
                            is Blocked implies post.blocked_queue@.contains((k + 1) as usize) by {
                        assert(pre.coroutines@[k].inner.status is Blocked);
                        let w = choose|w: int|
                            0 <= w < pre.blocked_queue@.len() && pre.blocked_queue@[w] == (k
                                + 1) as usize;
                        assert(w != found);
                        if w < found {
                            assert(post.blocked_queue@[w] == (k + 1) as usize);
                        } else {
                            assert(post.blocked_queue@[w - 1] == (k + 1) as usize);
                        }
                    }
                    assert forall|i: int|
                        0 <= i < post.ready_queue@.len() implies post.valid_cid(
                        #[trigger] post.ready_queue@[i] as int,
                    ) && post.status_of(post.ready_queue@[i] as int) is Ready by {
                        if i < pre.ready_queue@.len() {
                            assert(post.ready_queue@[i] == pre.ready_queue@[i]);
                        } else {
                            assert(post.ready_queue@[i] == cid);
                        }
                    }
                    assert forall|k: int|
                        0 <= k < post.coroutines@.len() && (
                        #[trigger] post.coroutines@[k]).inner.status
                            is Ready implies post.ready_queue@.contains((k + 1) as usize) by {
                        if k + 1 == cid {
                            assert(post.ready_queue@[post.ready_queue@.len() - 1] == cid);
                        } else {
                            assert(pre.coroutines@[k].inner.status is Ready);
                            let w = choose|w: int|
                                0 <= w < pre.ready_queue@.len() && pre.ready_queue@[w] == (k
                                    + 1) as usize;
                            assert(post.ready_queue@[w] == (k + 1) as usize);
                        }
                    }
                    assert forall|k: int|
                        0 <= k < post.coroutines@.len() implies #[trigger] post.stack_end(k) <= (if
                        k + 1 < post.coroutines@.len() {
                        post.coroutines@[k + 1].inner.stack_base as int
                    } else {
                        post.next_stack_base as int
                    }) by {
                        assert(pre.stack_end(k) == post.stack_end(k));
                        assert(pre.stack_end(k) <= (if k + 1 < pre.coroutines@.len() {
                            pre.coroutines@[k + 1].inner.stack_base as int
                        } else {
                            pre.next_stack_base as int
                        }));
                    }
                }
                true
            },
            None => false,
        }
    }

    /// What resuming does to the manager state: a Blocked coroutine
    /// moves from the blocked set to the ready FIFO's tail and becomes
    /// Ready; in every other case nothing changes.
    pub open spec fn resume_step(pre: Self, post: Self, cid: usize) -> bool {
        if pre.valid_cid(cid as int) && pre.status_of(cid as int) is Blocked {
            &&& post.coroutines@ == pre.registry_with_status(cid as int, CoroutineStatus::Ready)
            &&& post.current_coroutine == pre.current_coroutine
            &&& post.ready_queue@ == pre.ready_queue@.push(cid)
            &&& exists|i: int|
                {
                    &&& 0 <= i < pre.blocked_queue@.len()
                    &&& pre.blocked_queue@[i] == cid
                    &&& post.blocked_queue@ == pre.blocked_queue@.remove(i)
                }
            &&& post.next_stack_base == pre.next_stack_base
        } else {
            post == pre
        }
    }

    /// Makes the Blocked coroutine with the given identifier runnable
    /// again, moving it to the ready FIFO's tail.  Reports failure,
    /// changing nothing, for any target that is not Blocked: a Ready or
    /// Running coroutine needs no resume, and an Exited or unknown one
    /// has nothing to resume.
    pub fn try_resume_coroutine(&mut self, cid: usize) -> (eligible: bool)
        requires
            old(self).wf(),
        ensures
            final(self).wf(),
            eligible == (old(self).valid_cid(cid as int) && old(self).status_of(cid as int)
                is Blocked),
            Self::resume_step(*old(self), *final(self), cid),
    {
        self.unblock_coroutine(cid)
    }

    /// What exiting the running coroutine does: it is marked Exited and
    /// `current` clears, with no re-enqueueing anywhere; without a
    /// running coroutine nothing changes.
    pub open spec fn exit_step(pre: Self, post: Self) -> bool {
        match pre.current_coroutine {
            Some(c) => {
                &&& post.coroutines@ == pre.registry_with_status(c as int, CoroutineStatus::Exited)
                &&& post.current_coroutine is None
                &&& post.ready_queue@ == pre.ready_queue@
                &&& post.blocked_queue@ == pre.blocked_queue@
                &&& post.next_stack_base == pre.next_stack_base
            },
            None => post == pre,
        }
    }

    /// Marks the running coroutine Exited and clears `current`, without
    /// re-enqueueing it anywhere: the terminal analogue of blocking.
    /// The registry entry persists and its stack region is not
    /// reclaimed.  The caller must yield afterwards to hand control on.
    /// Without a running coroutine this is a no-op.
    pub fn exit_current_coroutine(&mut self)
        requires
            old(self).wf(),
        ensures
            final(self).wf(),
            Self::exit_step(*old(self), *final(self)),
    {
        let ghost pre = *old(self);
        match self.current_coroutine {
            Some(c) => {
                proof {
                    assert(pre.valid_cid(c as int));
                }
                let idx = c - 1;
                let ccb = &mut self.coroutines[idx];
                ccb.inner.status = CoroutineStatus::Exited;
                self.current_coroutine = None;
                proof {
                    let post = *self;
                    assert(post.coroutines@ =~= pre.registry_with_status(
                        c as int,
                        CoroutineStatus::Exited,
                    ));
                    assert forall|k: int|
                        0 <= k < post.coroutines@.len() && (
                        #[trigger] post.coroutines@[k]).inner.status
                            is Ready implies post.ready_queue@.contains((k + 1) as usize) by {
                        assert(pre.coroutines@[k].inner.status is Ready);
                    }
                    assert forall|k: int|
                        0 <= k < post.coroutines@.len() && (
                        #[trigger] post.coroutines@[k]).inner.status
                            is Blocked implies post.blocked_queue@.contains((k + 1) as usize) by {
                        assert(pre.coroutines@[k].inner.status is Blocked);
                    }
                    assert forall|k: int|
                        0 <= k < post.coroutines@.len() implies #[trigger] post.stack_end(k) <= (if
                        k + 1 < post.coroutines@.len() {
                        post.coroutines@[k + 1].inner.stack_base as int
                    } else {
                        post.next_stack_base as int
                    }) by {
                        assert(pre.stack_end(k) == post.stack_end(k));
                        assert(pre.stack_end(k) <= (if k + 1 < pre.coroutines@.len() {
                            pre.coroutines@[k + 1].inner.stack_base as int
                        } else {
                            pre.next_stack_base as int
                        }));
                    }
                }
            },
            None => {},
        }
    }
}

/// Law: stack regions are pairwise disjoint.  The stack of an earlier
/// coroutine ends at or below where the stack of any later one begins,
/// because the allocation cursor only ever advances.
pub proof fn lemma_stack_regions_disjoint(m: CoroutineManager, j: int, k: int)
    requires
        m.wf(),
        0 <= j < k < m.coroutines@.len(),
    ensures
        m.stack_end(j) <= m.coroutines@[k].inner.stack_base as int,
    decreases k - j,
{
    if j + 1 == k {
        assert(m.stack_end(j) <= m.coroutines@[j + 1].inner.stack_base as int);
    } else {
        lemma_stack_regions_disjoint(m, j, k - 1);
        assert(m.stack_end(k - 1) <= m.coroutines@[k].inner.stack_base as int);
    }
}

/// Law: yielding rotates the ready FIFO.  While a coroutine is running
/// and others are ready, a scheduling step switches to the FIFO's
/// front and re-enqueues the previously running coroutine at the tail,
/// so repeated yields cycle through the ready coroutines in strict
/// creation-of-readiness order, indefinitely.
pub proof fn lemma_yield_rotates_fifo(
    pre: CoroutineManager,
    post: CoroutineManager,
    r: Option<(usize, usize)>,
)
    requires
        pre.wf(),
        CoroutineManager::yield_step(pre, post, r),
        pre.current_coroutine is Some,
        pre.ready_queue@.len() > 0,
    ensures
        r == Some((pre.current_coroutine->0, pre.ready_queue@[0])),
        post.current_coroutine == Some(pre.ready_queue@[0]),
        post.status_of(pre.ready_queue@[0] as int) is Running,
        post.ready_queue@ == pre.ready_queue@.subrange(1, pre.ready_queue@.len() as int).push(
            pre.current_coroutine->0,
        ),
{
    assert(pre.valid_cid(pre.ready_queue@[0] as int));
    assert(pre.valid_cid(pre.current_coroutine->0 as int));
    assert forall|i: int| 0 <= i < pre.ready_queue@.len() implies pre.ready_queue@[i]
        != pre.current_coroutine->0 by {
        assert(pre.status_of(pre.ready_queue@[i] as int) is Ready);
    }
}

/// A chain of `n` successive scheduling steps, with no blocking,
/// resuming or creation in between.
pub open spec fn yields_from(pre: CoroutineManager, post: CoroutineManager, n: nat) -> bool
    decreases n,
{
    if n == 0 {
        post == pre
    } else {
        exists|mid: CoroutineManager, r: Option<(usize, usize)>|
            CoroutineManager::yield_step(pre, mid, r) && yields_from(mid, post, (n - 1) as nat)
    }
}

/// Law: the ready FIFO eventually schedules everything it holds.  A
/// coroutine sitting at position `j` of the ready FIFO is the running
/// coroutine after exactly `j + 1` scheduling steps, however the
/// coroutines ahead of it are interleaved.
pub proof fn lemma_fifo_eventually_schedules(
    pre: CoroutineManager,
    post: CoroutineManager,
    j: int,
)
    requires
        pre.wf(),
        pre.current_coroutine is Some,
        0 <= j < pre.ready_queue@.len(),
        yields_from(pre, post, (j + 1) as nat),
    ensures
        post.current_coroutine == Some(pre.ready_queue@[j]),
    decreases j,
{
    let (mid, r) = choose|mid: CoroutineManager, r: Option<(usize, usize)>|
        CoroutineManager::yield_step(pre, mid, r) && yields_from(mid, post, j as nat);
    lemma_yield_step_wf(pre, mid, r);
    lemma_yield_rotates_fifo(pre, mid, r);
    if j == 0 {
        assert(post == mid);
    } else {
        assert(mid.ready_queue@[j - 1] == pre.ready_queue@[j]);
        lemma_fifo_eventually_schedules(mid, post, j - 1);
    }
}

/// Position of the first occurrence of `cid` in the queue, if any.
fn find_in_queue(queue: &Vec<usize>, cid: usize) -> (r: Option<usize>)
    ensures
        match r {
            Some(i) => i < queue@.len() && queue@[i as int] == cid,
            None => !queue@.contains(cid),
        },
{
    let mut i: usize = 0;
    while i < queue.len()
        invariant
            i <= queue@.len(),
            forall|j: int| 0 <= j < i ==> queue@[j] != cid,
        decreases queue@.len() - i,
    {
        if queue[i] == cid {
            return Some(i);
        }
        i = i + 1;
    }
    None
}


/// A scheduling step taken from a well-formed manager leaves it
/// well-formed.
proof fn lemma_yield_step_wf(pre: CoroutineManager, post: CoroutineManager, r: Option<
    (usize, usize),
>)
    requires
        pre.wf(),
        CoroutineManager::yield_step(pre, post, r),
    ensures
        post.wf(),
{
    if pre.ready_queue@.len() == 0 {
        return ;
    }
    let f = pre.ready_queue@[0];
    assert(pre.valid_cid(f as int));
    match pre.current_coroutine {
        None => {
            assert forall|i: int| 0 <= i < post.ready_queue@.len() implies post.valid_cid(
                #[trigger] post.ready_queue@[i] as int,
            ) && post.status_of(post.ready_queue@[i] as int) is Ready by {
                assert(post.ready_queue@[i] == pre.ready_queue@[i + 1]);
                assert(pre.status_of(pre.ready_queue@[i + 1] as int) is Ready);
            }
            assert forall|k: int|
                0 <= k < post.coroutines@.len() && (#[trigger] post.coroutines@[k]).inner.status
                    is Ready implies post.ready_queue@.contains((k + 1) as usize) by {
                assert(pre.coroutines@[k].inner.status is Ready);
                assert(pre.ready_queue@.contains((k + 1) as usize));
                let w = choose|w: int|
                    0 <= w < pre.ready_queue@.len() && pre.ready_queue@[w] == (k + 1) as usize;
                assert(w != 0);
                assert(post.ready_queue@[w - 1] == (k + 1) as usize);
            }
            assert forall|k: int|
                0 <= k < post.coroutines@.len() && (#[trigger] post.coroutines@[k]).inner.status
                    is Blocked implies post.blocked_queue@.contains((k + 1) as usize) by {
                assert(pre.coroutines@[k].inner.status is Blocked);
            }
            assert forall|k: int| 0 <= k < post.coroutines@.len() implies #[trigger] post.stack_end(
                k,
            ) <= (if k + 1 < post.coroutines@.len() {
                post.coroutines@[k + 1].inner.stack_base as int
            } else {
                post.next_stack_base as int
            }) by {
                assert(pre.stack_end(k) == post.stack_end(k));
                assert(pre.stack_end(k) <= (if k + 1 < pre.coroutines@.len() {
                    pre.coroutines@[k + 1].inner.stack_base as int
                } else {
                    pre.next_stack_base as int
                }));
            }
        },
        Some(c) => {
            assert(pre.valid_cid(c as int));
            assert forall|i: int| 0 <= i < pre.ready_queue@.len() implies pre.ready_queue@[i]
                != c by {
                assert(pre.status_of(pre.ready_queue@[i] as int) is Ready);
            }
            assert(f != c);
            assert forall|i: int| 0 <= i < post.ready_queue@.len() implies post.valid_cid(
                #[trigger] post.ready_queue@[i] as int,
            ) && post.status_of(post.ready_queue@[i] as int) is Ready by {
                if i < post.ready_queue@.len() - 1 {
                    assert(post.ready_queue@[i] == pre.ready_queue@[i + 1]);
                    assert(pre.status_of(pre.ready_queue@[i + 1] as int) is Ready);
                    assert(pre.ready_queue@[i + 1] != f);
                } else {
                    assert(post.ready_queue@[i] == c);
                }
            }
            assert(distinct(post.ready_queue@)) by {
                assert forall|i: int, j: int|
                    0 <= i < j < post.ready_queue@.len() implies post.ready_queue@[i]
                    != post.ready_queue@[j] by {
                    if j < post.ready_queue@.len() - 1 {
                        assert(post.ready_queue@[i] == pre.ready_queue@[i + 1]);
                        assert(post.ready_queue@[j] == pre.ready_queue@[j + 1]);
                    } else {
                        assert(post.ready_queue@[j] == c);
                        assert(post.ready_queue@[i] == pre.ready_queue@[i + 1]);
                    }
                }
            }
            assert forall|k: int|
                0 <= k < post.coroutines@.len() && (#[trigger] post.coroutines@[k]).inner.status
                    is Ready implies post.ready_queue@.contains((k + 1) as usize) by {
                if k + 1 == c {
                    assert(post.ready_queue@[post.ready_queue@.len() - 1] == c);
                } else {
                    assert(pre.coroutines@[k].inner.status is Ready);
                    assert(pre.ready_queue@.contains((k + 1) as usize));
                    let w = choose|w: int|
                        0 <= w < pre.ready_queue@.len() && pre.ready_queue@[w] == (k + 1) as usize;
                    assert(w != 0);
                    assert(post.ready_queue@[w - 1] == (k + 1) as usize);
                }
            }
            assert forall|k: int|
                0 <= k < post.coroutines@.len() && (#[trigger] post.coroutines@[k]).inner.status
                    is Blocked implies post.blocked_queue@.contains((k + 1) as usize) by {
                assert(pre.coroutines@[k].inner.status is Blocked);
            }
            assert forall|k: int| 0 <= k < post.coroutines@.len() implies #[trigger] post.stack_end(
                k,
            ) <= (if k + 1 < post.coroutines@.len() {
                post.coroutines@[k + 1].inner.stack_base as int
            } else {
                post.next_stack_base as int
            }) by {
                assert(pre.stack_end(k) == post.stack_end(k));
                assert(pre.stack_end(k) <= (if k + 1 < pre.coroutines@.len() {
                    pre.coroutines@[k + 1].inner.stack_base as int
                } else {
                    pre.next_stack_base as int
                }));
            }
        },
    }
}

} // verus!
