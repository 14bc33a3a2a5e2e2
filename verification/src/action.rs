//! What a system call hands back to the kernel besides its return value.
use vstd::prelude::*;

verus! {

/// Work that the kernel carries out for a system call once the call's
/// bookkeeping is done: blocking on or waking a synchronisation object,
/// giving up the processor, or ending the task.
#[derive(Clone, Copy, PartialEq, Eq, Structural, Debug)]
pub enum Action {
    /// Nothing beyond returning to the caller.
    Proceed,
    /// Give up the processor to the next ready task.
    Yield,
    /// End the current task with this exit code.
    Exit(i32),
    /// Block the current task until this time (in milliseconds).
    SleepUntil(usize),
    /// Lock the mutex with this id.
    LockMutex(usize),
    /// Unlock the mutex with this id.
    UnlockMutex(usize),
    /// Release one unit of the semaphore with this id.
    SemaphoreUp(usize),
    /// Acquire one unit of the semaphore with this id.
    SemaphoreDown(usize),
    /// Wake one waiter of the condition variable with this id.
    CondvarSignal(usize),
    /// Wait on the condition variable (first id), releasing the mutex (second id) meanwhile.
    CondvarWait(usize, usize),
}

/// The value a system call returns to user space and the work left to the kernel.
#[derive(Clone, Copy, PartialEq, Eq, Structural, Debug)]
pub struct Outcome {
    pub ret: isize,
    pub action: Action,
}

} // verus!
