//! The scheduler-relevant view of a process: identifier, priority,
//! execution state, quantum counter, saved registers and the flags the
//! handoff path reads.

use vstd::prelude::*;
use crate::binary_tree::Pid;
use crate::util::Regs;

verus! {

/// The execution state of a process. Only `Running` is schedulable; the
/// other states are skipped by selection without being removed from the
/// index.
#[derive(Clone, Copy, Debug, PartialEq, Eq, Structural)]
pub enum State {
    /// The process can be given the CPU.
    Running,
    /// The process waits for an event.
    Sleeping,
    /// The process has been suspended.
    Stopped,
    /// The process has exited and waits to be reaped.
    Zombie,
}

/// The subset of a process record that the scheduler reads and writes.
#[derive(Clone, Copy, Debug, PartialEq, Eq, Structural)]
pub struct Process {
    /// The unique, immutable process identifier.
    pub pid: Pid,
    /// The scheduling priority; higher means longer time slices.
    pub priority: usize,
    /// The execution state.
    pub state: State,
    /// Ticks consumed since the counter was last reset.
    pub quantum_count: usize,
    /// The saved register snapshot.
    pub regs: Regs,
    /// Whether the process was interrupted inside a system call.
    pub syscalling: bool,
    /// The kernel stack pointer for the next privilege transition.
    pub kernel_stack: usize,
    /// The identifier of the address space to bind on resume.
    pub mem_space: usize,
    /// Whether a signal is pending for the process.
    pub pending_signal: bool,
}

/// Checks whether a system call in progress must be interrupted so the
/// process can handle a pending signal.
///
/// When a signal is pending, the saved instruction pointer is moved back
/// over the two-byte system-call instruction so the call is resumed after
/// the handler, the registers are stored into the record, and the
/// syscall-in-progress flag is cleared. Returns whether the process record
/// was redirected this way.
pub fn signal_check(process: &mut Process, regs: &Regs) -> (r: bool)
    requires
        old(process).pending_signal ==> regs.eip >= i32::MIN + 2,
    ensures
        r == old(process).pending_signal,
        r ==> *final(process) == (Process {
            regs: (Regs { eip: (regs.eip - 2) as i32, ..*regs }),
            syscalling: false,
            ..*old(process)
        }),
        !r ==> *final(process) == *old(process),
{
    if process.pending_signal {
        let mut r = *regs;
        r.eip = r.eip - 2;
        process.regs = r;
        process.syscalling = false;
        true
    } else {
        false
    }
}

} // verus!
