//! Per-CPU dispatch state machine.
//!
//! One `Processor` exists per CPU, owned outright by that CPU's execution
//! context; its state is mutated only with interrupt delivery suspended for
//! the core.  The machine decides, for each event the surrounding kernel
//! hands it (the pool's answer to "next task", the policy's reschedule
//! signal), which context switch or wait the CPU must perform next; the
//! kernel performs the switch, the interrupt masking and the pool calls,
//! which no verified code can do itself.

use vstd::prelude::*;

use crate::Tid;

verus! {

/// Opaque handle standing for a machine execution context (a register save
/// area); the surrounding kernel maps handles to the real contexts.
#[derive(Clone, Copy, Debug, PartialEq, Eq, Structural)]
pub struct Context {
    /// The kernel's identifier for the underlying register context.
    pub handle: usize,
}

impl Context {
    /// Wrap a kernel context handle.
    pub fn new(handle: usize) -> (r: Context)
        ensures
            r == (Context { handle }),
    {
        Context { handle }
    }
}

/// Initialized per-CPU state.
pub struct ProcessorInner {
    /// Index of the owning CPU.
    pub id: usize,
    /// The running task and its execution context; `None` while idle.
    pub thread: Option<(Tid, Context)>,
    /// Execution context of the dispatch loop itself.
    pub loop_context: Context,
}

/// What the dispatch loop must do next.
pub enum DispatchAction {
    /// Switch the hardware context `from` out and `to` in.
    Switch {
        /// Context being suspended.
        from: Context,
        /// Context being resumed.
        to: Context,
    },
    /// No runnable task: enable interrupts and wait for the next one, so the
    /// CPU never busy-spins between consecutive pool queries.
    WaitForInterrupt,
}

/// Per-CPU thread executor: initialize once with `init`, then feed it the
/// pool's answers through `dispatch` and `retire`, and the timer interrupt
/// through `tick`.
pub struct Processor {
    /// State present once `init` ran.
    pub inner: Option<ProcessorInner>,
}

impl Processor {
    /// `init` has run.
    pub open spec fn is_initialized(&self) -> bool {
        self.inner is Some
    }

    /// A task currently occupies this CPU.
    pub open spec fn is_running(&self) -> bool {
        self.is_initialized() && self.inner->Some_0.thread is Some
    }

    /// The running task and its context.
    pub open spec fn spec_thread(&self) -> (Tid, Context)
        recommends
            self.is_running(),
    {
        self.inner->Some_0.thread->Some_0
    }

    /// An uninitialized processor slot.
    pub fn new() -> (r: Processor)
        ensures
            !r.is_initialized(),
    {
        Processor { inner: None }
    }

    /// One-time setup of the CPU's slot: its index and the context of its
    /// dispatch loop.  Must run before any other operation.
    pub fn init(&mut self, id: usize, context: Context)
        requires
            !old(self).is_initialized(),
        ensures
            final(self).is_initialized(),
            !final(self).is_running(),
            final(self).inner->Some_0.id == id,
            final(self).inner->Some_0.loop_context == context,
    {
        self.inner = Some(ProcessorInner { id, thread: None, loop_context: context });
    }

    /// Task id of the running task; calling this while idle is a usage
    /// error, so idleness is excluded here.
    pub fn tid(&self) -> (r: Tid)
        requires
            self.is_running(),
        ensures
            r == self.spec_thread().0,
    {
        match &self.inner {
            Some(inner) => {
                match &inner.thread {
                    Some(t) => t.0,
                    None => unreached(),
                }
            },
            None => unreached(),
        }
    }

    /// Task id of the running task, or `None` when idle or uninitialized.
    pub fn tid_option(&self) -> (r: Option<Tid>)
        ensures
            r == if self.is_running() {
                Some(self.spec_thread().0)
            } else {
                None::<Tid>
            },
    {
        match &self.inner {
            Some(inner) => {
                match &inner.thread {
                    Some(t) => Some(t.0),
                    None => None,
                }
            },
            None => None,
        }
    }

    /// Context handle of the running task.
    pub fn context(&self) -> (r: &Context)
        requires
            self.is_running(),
        ensures
            *r == self.spec_thread().1,
    {
        match &self.inner {
            Some(inner) => {
                match &inner.thread {
                    Some(t) => &t.1,
                    None => unreached(),
                }
            },
            None => unreached(),
        }
    }

    /// One decision of the dispatch loop, taken while idle with interrupts
    /// disabled: given the pool's answer for this CPU, either record the
    /// chosen task as current and switch from the loop into it, or — when no
    /// task is runnable — keep the state untouched and wait for an
    /// interrupt rather than querying the pool again at once.
    pub fn dispatch(&mut self, next: Option<(Tid, Context)>) -> (r: DispatchAction)
        requires
            old(self).is_initialized(),
            !old(self).is_running(),
        ensures
            final(self).is_initialized(),
            final(self).inner->Some_0.id == old(self).inner->Some_0.id,
            final(self).inner->Some_0.loop_context == old(self).inner->Some_0.loop_context,
            next is Some ==> final(self).is_running() && final(self).spec_thread()
                == next->Some_0 && r == (DispatchAction::Switch {
                from: old(self).inner->Some_0.loop_context,
                to: next->Some_0.1,
            }),
            next is None ==> *final(self) == *old(self) && r == DispatchAction::WaitForInterrupt,
    {
        match &mut self.inner {
            Some(inner) => {
                match next {
                    Some(thread) => {
                        let to = thread.1;
                        inner.thread = Some(thread);
                        DispatchAction::Switch { from: inner.loop_context, to }
                    },
                    None => DispatchAction::WaitForInterrupt,
                }
            },
            None => unreached(),
        }
    }

    /// The running task has switched back into the loop context: clear the
    /// current-task slot and hand the pair back, for the kernel to return to
    /// the pool's retire operation.
    pub fn retire(&mut self) -> (r: (Tid, Context))
        requires
            old(self).is_running(),
        ensures
            !final(self).is_running(),
            final(self).is_initialized(),
            final(self).inner->Some_0.id == old(self).inner->Some_0.id,
            final(self).inner->Some_0.loop_context == old(self).inner->Some_0.loop_context,
            r == old(self).spec_thread(),
    {
        match &mut self.inner {
            Some(inner) => {
                let t = inner.thread.take();
                match t {
                    Some(pair) => pair,
                    None => unreached(),
                }
            },
            None => unreached(),
        }
    }

    /// The switch a voluntary or forced yield performs: the running task's
    /// context out, the loop context back in.  Callable only while a task is
    /// current; the kernel disables interrupts around the switch and
    /// restores the prior mask afterwards.
    pub fn yield_now(&self) -> (r: (Context, Context))
        requires
            self.is_running(),
        ensures
            r == (self.spec_thread().1, self.inner->Some_0.loop_context),
    {
        match &self.inner {
            Some(inner) => {
                match &inner.thread {
                    Some(t) => (t.1, inner.loop_context),
                    None => unreached(),
                }
            },
            None => unreached(),
        }
    }

    /// Timer-interrupt decision, taken with interrupts disabled: given the
    /// scheduling subsystem's verdict for the current task, name the yield
    /// switch to perform — forcing the task off the CPU — or nothing.  A
    /// reschedule can only be demanded while a task runs.
    pub fn tick(&self, need_reschedule: bool) -> (r: Option<(Context, Context)>)
        requires
            self.is_initialized(),
            need_reschedule ==> self.is_running(),
        ensures
            r is Some <==> need_reschedule,
            need_reschedule ==> r == Some(
                (self.spec_thread().1, self.inner->Some_0.loop_context),
            ),
    {
        if need_reschedule {
            Some(self.yield_now())
        } else {
            None
        }
    }
}

} // verus!
