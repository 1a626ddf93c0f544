use kernel_core::process::{Process, State};
use kernel_core::scheduler::{SchedError, Scheduler, TickOutcome};
use kernel_core::util::Regs;

fn proc(pid: u32, priority: usize, state: State) -> Process {
    Process {
        pid,
        priority,
        state,
        quantum_count: 0,
        regs: Regs::zeroed(),
        syscalling: false,
        kernel_stack: 0x1000 + pid as usize,
        mem_space: 0x2000 + pid as usize,
        pending_signal: false,
    }
}

fn tick_pid(s: &mut Scheduler) -> Option<u32> {
    match s.tick(&Regs::zeroed(), 3) {
        TickOutcome::Switch(cs) => Some(cs.pid),
        TickOutcome::Idle => None,
    }
}

#[test]
fn three_processes_round_robin() {
    // Three runnable processes, none current: ticks select them in
    // ascending order and the fourth tick wraps to the first.
    let mut s = Scheduler::new(1);
    for pid in [1u32, 2, 3] {
        s.add_process(proc(pid, 10, State::Running)).unwrap();
    }
    assert_eq!(tick_pid(&mut s), Some(1));
    assert_eq!(tick_pid(&mut s), Some(2));
    assert_eq!(tick_pid(&mut s), Some(3));
    assert_eq!(tick_pid(&mut s), Some(1));
}

#[test]
fn priority_statistics() {
    // Priorities {5, 10, 20}: sum 35, count 3, average 11; the maximum
    // priority receives the maximum quantum and a low priority less than
    // the base quantum.
    let mut s = Scheduler::new(1);
    s.add_process(proc(1, 5, State::Running)).unwrap();
    s.add_process(proc(2, 10, State::Running)).unwrap();
    s.add_process(proc(3, 20, State::Running)).unwrap();
    assert_eq!(s.get_processes_count(), 3);
    assert_eq!(Scheduler::get_average_priority(35, 3), 11);
    assert_eq!(Scheduler::get_quantum_count(20, 35, 20, 3), 30);
    let q11 = Scheduler::get_quantum_count(11, 35, 20, 3);
    assert_eq!(q11, 10);
    let q5 = Scheduler::get_quantum_count(5, 35, 20, 3);
    assert!(q5 < q11);
    assert_eq!(q5, 1);
}

#[test]
fn empty_scheduler_idles() {
    // An empty index selects nothing; the tick takes the idle path and
    // does not panic.
    let mut s = Scheduler::new(1);
    assert!(matches!(s.tick(&Regs::zeroed(), 3), TickOutcome::Idle));
    assert_eq!(s.get_total_ticks(), 1);
}

#[test]
fn wraparound_from_highest_pid() {
    // The current process has the highest identifier and nothing above it
    // is runnable: the selection wraps to the smallest runnable one.
    let mut s = Scheduler::new(1);
    s.add_process(proc(2, 10, State::Running)).unwrap();
    s.add_process(proc(9, 10, State::Running)).unwrap();
    assert_eq!(tick_pid(&mut s), Some(2));
    assert_eq!(tick_pid(&mut s), Some(9));
    // Current is now 9, the maximum: the next tick wraps to 2.
    assert_eq!(tick_pid(&mut s), Some(2));
}

#[test]
fn outgoing_quantum_reset() {
    // Switching away from a process resets its quantum counter, so it
    // starts counting afresh when selected again.
    let mut s = Scheduler::new(1);
    s.add_process(proc(1, 10, State::Running)).unwrap();
    s.add_process(proc(2, 10, State::Running)).unwrap();
    assert_eq!(tick_pid(&mut s), Some(1));
    assert_eq!(s.get_by_pid(1).unwrap().quantum_count, 1);
    assert_eq!(tick_pid(&mut s), Some(2));
    // Process 1 was the outgoing process: its counter is back to zero.
    assert_eq!(s.get_by_pid(1).unwrap().quantum_count, 0);
    assert_eq!(s.get_by_pid(2).unwrap().quantum_count, 1);
    assert_eq!(tick_pid(&mut s), Some(1));
    assert_eq!(s.get_by_pid(1).unwrap().quantum_count, 1);
}

#[test]
fn single_process_keeps_running() {
    // With exactly one process, the traversal wraps to the process
    // itself; its quantum counter is reset on every selection, so it
    // stays at one tick.
    let mut s = Scheduler::new(1);
    s.add_process(proc(7, 10, State::Running)).unwrap();
    assert_eq!(tick_pid(&mut s), Some(7));
    assert_eq!(tick_pid(&mut s), Some(7));
    assert_eq!(s.get_by_pid(7).unwrap().quantum_count, 1);
}

#[test]
fn removing_current_process() {
    // Removing the process that is marked current must not disturb the
    // next tick: a different runnable process is selected, or the idle
    // path is taken when none is left.
    let mut s = Scheduler::new(1);
    s.add_process(proc(1, 10, State::Running)).unwrap();
    s.add_process(proc(2, 10, State::Running)).unwrap();
    assert_eq!(tick_pid(&mut s), Some(1));
    s.remove_process(1);
    assert_eq!(tick_pid(&mut s), Some(2));
    s.remove_process(2);
    assert!(matches!(s.tick(&Regs::zeroed(), 3), TickOutcome::Idle));
}

#[test]
fn sleeping_processes_are_skipped() {
    let mut s = Scheduler::new(1);
    s.add_process(proc(1, 10, State::Sleeping)).unwrap();
    s.add_process(proc(2, 10, State::Running)).unwrap();
    s.add_process(proc(3, 10, State::Zombie)).unwrap();
    assert_eq!(tick_pid(&mut s), Some(2));
    assert_eq!(tick_pid(&mut s), Some(2));
}

#[test]
fn duplicate_pid_rejected() {
    let mut s = Scheduler::new(1);
    s.add_process(proc(4, 10, State::Running)).unwrap();
    let e = s.add_process(proc(4, 11, State::Running)).unwrap_err();
    assert_eq!(e, SchedError::AlreadyRegistered);
    assert_eq!(s.get_processes_count(), 1);
    assert_eq!(s.get_by_pid(4).unwrap().priority, 10);
}

#[test]
fn tracker_updates() {
    // The tracker keeps the exact priority sum while the maximum never
    // decreases.
    let mut s = Scheduler::new(1);
    s.add_process(proc(1, 5, State::Running)).unwrap();
    s.add_process(proc(2, 30, State::Running)).unwrap();
    assert!(s.set_priority(2, 1));
    // The sum dropped to 6; quantum computation still sees max 30.
    assert_eq!(s.get_by_pid(2).unwrap().priority, 1);
    assert!(!s.set_priority(99, 4));
    s.remove_process(2);
    assert_eq!(s.get_processes_count(), 1);
}

#[test]
fn tick_saves_registers() {
    // The tick stores the interrupted register state into the current
    // process's record, and marks a ring-0 interruption as syscalling.
    let mut s = Scheduler::new(1);
    s.add_process(proc(1, 10, State::Running)).unwrap();
    assert_eq!(tick_pid(&mut s), Some(1));
    let mut regs = Regs::zeroed();
    regs.eip = 77;
    match s.tick(&regs, 0) {
        TickOutcome::Switch(cs) => {
            assert_eq!(cs.pid, 1);
            assert_eq!(cs.regs.eip, 77);
            assert!(cs.syscalling);
            assert_eq!(cs.kernel_stack, 0x1001);
        }
        TickOutcome::Idle => panic!("a runnable process must be selected"),
    }
    assert_eq!(s.get_by_pid(1).unwrap().regs.eip, 77);
}

#[test]
fn get_next_process_only_selects() {
    let mut s = Scheduler::new(1);
    s.add_process(proc(3, 10, State::Running)).unwrap();
    s.add_process(proc(5, 10, State::Sleeping)).unwrap();
    assert_eq!(s.get_next_process(), Some(3));
    assert!(s.get_current_process().is_none());
    assert_eq!(s.get_process_pids(), vec![3, 5]);
}

#[test]
fn can_run_depends_on_state_alone() {
    let running = proc(1, 10, State::Running);
    let stopped = proc(2, 10, State::Stopped);
    assert!(Scheduler::can_run(&running, 20, 10, 2));
    assert!(!Scheduler::can_run(&stopped, 20, 10, 2));
}

#[test]
fn quantum_is_monotonic_and_bounded() {
    // For priorities up to the maximum the quantum never decreases and
    // stays within one tick and the maximum quantum.
    let (sum, max, count) = (60, 30, 4);
    let mut last = 0;
    for p in 0..=30 {
        let q = Scheduler::get_quantum_count(p, sum, max, count);
        assert!((1..=30).contains(&q));
        assert!(q >= last);
        last = q;
    }
    assert_eq!(Scheduler::get_quantum_count(30, sum, max, count), 30);
}
