//! The process scheduler: on every timer tick it saves the outgoing
//! process's context, selects the next runnable process by ordered
//! round-robin traversal of the process index, computes quantum
//! bookkeeping, and hands the caller the data needed for the context
//! switch.
//!
//! The selection algorithm is specified exactly: starting strictly after
//! the current process (or at the smallest identifier when none is
//! current), identifiers are examined in ascending cyclic order and the
//! first runnable process wins. `is_selection` states this as the law the
//! implementation is proved against.

use vstd::prelude::*;
use crate::binary_tree::BinaryTree;
use crate::binary_tree::Pid;
use crate::process::Process;
use crate::process::State;
use crate::util::Regs;

verus! {

use vstd::arithmetic::div_mod::lemma_div_is_ordered;
use vstd::arithmetic::div_mod::lemma_div_multiples_vanish;
use vstd::arithmetic::div_mod::lemma_div_pos_is_pos;
use vstd::arithmetic::mul::lemma_mul_inequality;

/// The number of quanta for the process with the average priority.
pub const AVERAGE_PRIORITY_QUANTA: usize = 10;

/// The number of quanta for the process with the maximum priority.
pub const MAX_PRIORITY_QUANTA: usize = 30;

/// An error of a scheduler operation.
#[derive(Clone, Copy, Debug, PartialEq, Eq, Structural)]
pub enum SchedError {
    /// A process with the same identifier is already registered.
    AlreadyRegistered,
}

/// Per-core context-switch slot: the process the core is switching to.
#[derive(Clone, Copy, Debug, PartialEq, Eq, Structural)]
pub struct ContextSwitchData {
    /// The identifier of the process to switch to.
    pub pid: Pid,
}

/// Everything the interrupt glue needs to perform the handoff to the
/// selected process.
#[derive(Clone, Copy, Debug, PartialEq, Eq, Structural)]
pub struct ContextSwitch {
    /// The identifier of the process to resume.
    pub pid: Pid,
    /// The register snapshot to restore.
    pub regs: Regs,
    /// Whether the process was interrupted inside a system call.
    pub syscalling: bool,
    /// The kernel stack pointer for the privilege transition.
    pub kernel_stack: usize,
    /// The address space to bind before resuming.
    pub mem_space: usize,
    /// Whether the signal-delivery hook must run before resuming.
    pub signal_pending: bool,
}

/// What a tick decides: either hand the CPU to a process, or enter the
/// idle path because no process can run.
#[derive(Clone, Copy, Debug, PartialEq, Eq, Structural)]
pub enum TickOutcome {
    /// Switch to the described process.
    Switch(ContextSwitch),
    /// No process to run: bind the kernel's own address space and wait.
    Idle,
}

/// True when the process may be given the CPU.
pub open spec fn spec_can_run(p: Process) -> bool {
    p.state == State::Running
}

/// True when `k` names a runnable process of `m`.
pub open spec fn runnable_in(m: Map<Pid, Process>, k: Pid) -> bool {
    m.dom().contains(k) && spec_can_run(m[k])
}

/// The sum of the priorities of the processes named by `s`.
pub closed spec fn prio_sum(s: Set<Pid>, m: Map<Pid, Process>) -> int
    decreases s.len(),
    when s.finite()
{
    if s.len() == 0 {
        0
    } else {
        let k = s.choose();
        m[k].priority + prio_sum(s.remove(k), m)
    }
}

/// `prio_sum` can be unfolded at any member, not only the chosen one.
proof fn lemma_prio_sum_pick(s: Set<Pid>, m: Map<Pid, Process>, k: Pid)
    requires
        s.finite(),
        s.contains(k),
    ensures
        prio_sum(s, m) == m[k].priority + prio_sum(s.remove(k), m),
    decreases s.len(),
{
    let c = s.choose();
    assert(s.contains(c));
    if c == k {
    } else {
        let s1 = s.remove(c);
        lemma_prio_sum_pick(s1, m, k);
        let s2 = s.remove(k);
        lemma_prio_sum_pick(s2, m, c);
        assert(s1.remove(k) =~= s2.remove(c));
    }
}

/// Priority sums only depend on the priorities of the named processes.
proof fn lemma_prio_sum_agree(s: Set<Pid>, m1: Map<Pid, Process>, m2: Map<Pid, Process>)
    requires
        s.finite(),
        forall|k: Pid| s.contains(k) ==> m1[k].priority == m2[k].priority,
    ensures
        prio_sum(s, m1) == prio_sum(s, m2),
    decreases s.len(),
{
    if s.len() != 0 {
        let k = s.choose();
        assert(s.contains(k));
        lemma_prio_sum_agree(s.remove(k), m1, m2);
        lemma_prio_sum_pick(s, m2, k);
    }
}

/// A priority sum is at least zero, and at least each member's priority.
proof fn lemma_prio_sum_member(s: Set<Pid>, m: Map<Pid, Process>)
    requires
        s.finite(),
    ensures
        prio_sum(s, m) >= 0,
        forall|k: Pid| s.contains(k) ==> m[k].priority <= prio_sum(s, m),
    decreases s.len(),
{
    if s.len() != 0 {
        let c = s.choose();
        assert(s.contains(c));
        lemma_prio_sum_member(s.remove(c), m);
        assert forall|k: Pid| s.contains(k) implies m[k].priority <= prio_sum(s, m) by {
            lemma_prio_sum_pick(s, m, k);
            lemma_prio_sum_member(s.remove(k), m);
        }
    }
}



/// The average priority: the exact integer quotient of the priority sum by
/// the process count.
pub open spec fn spec_average(sum: int, count: int) -> int
    recommends
        count > 0,
{
    sum / count
}

/// The quantum of a priority: linear interpolation between the point
/// (average priority, `AVERAGE_PRIORITY_QUANTA`) and the point (maximum
/// priority, `MAX_PRIORITY_QUANTA`), clamped to at least one tick. When
/// the average equals the maximum the interpolation degenerates and the
/// maximum quantum is used.
pub open spec fn spec_quantum(priority: int, sum: int, max: int, count: int) -> int
    recommends
        count > 0,
        0 <= sum <= max * count,
{
    let avg = spec_average(sum, count);
    let span = MAX_PRIORITY_QUANTA - AVERAGE_PRIORITY_QUANTA;
    if avg >= max {
        MAX_PRIORITY_QUANTA as int
    } else if priority >= avg {
        AVERAGE_PRIORITY_QUANTA + (priority - avg) * span / (max - avg)
    } else {
        let shortfall = (avg - priority) * span / (max - avg);
        if AVERAGE_PRIORITY_QUANTA - shortfall < 1 {
            1
        } else {
            AVERAGE_PRIORITY_QUANTA - shortfall
        }
    }
}

/// Quantum monotonicity: within the priorities up to the maximum, a higher
/// priority never receives a shorter quantum; the maximum priority
/// receives exactly `MAX_PRIORITY_QUANTA`; and every quantum lies between
/// one tick and `MAX_PRIORITY_QUANTA`.
pub proof fn lemma_quantum_monotonic(p1: int, p2: int, sum: int, max: int, count: int)
    requires
        0 <= p1 <= p2 <= max,
        count > 0,
        0 <= sum <= max * count,
    ensures
        spec_quantum(p1, sum, max, count) <= spec_quantum(p2, sum, max, count),
        spec_quantum(max, sum, max, count) == MAX_PRIORITY_QUANTA as int,
        1 <= spec_quantum(p1, sum, max, count) <= MAX_PRIORITY_QUANTA as int,
{
    let avg = spec_average(sum, count);
    let span = MAX_PRIORITY_QUANTA - AVERAGE_PRIORITY_QUANTA;
    assert(avg <= max) by {
        lemma_div_is_ordered(sum, max * count, count);
        lemma_div_multiples_vanish(max, count);
        assert(max * count == count * max) by (nonlinear_arith);
    }
    assert(avg >= 0) by {
        lemma_div_pos_is_pos(sum, count);
    }
    if avg >= max {
    } else {
        let d = max - avg;
        assert(spec_quantum(max, sum, max, count) == MAX_PRIORITY_QUANTA as int) by {
            lemma_div_multiples_vanish(span, d);
            assert(d * span == span * d) by (nonlinear_arith);
        }
        // Every quantum of a priority up to the maximum lies in range.
        assert forall|p: int|
            #![trigger spec_quantum(p, sum, max, count)]
            avg <= p <= max implies AVERAGE_PRIORITY_QUANTA <= spec_quantum(
            p,
            sum,
            max,
            count,
        ) <= MAX_PRIORITY_QUANTA as int by {
            lemma_div_pos_is_pos((p - avg) * span, d);
            lemma_mul_inequality(p - avg, d, span);
            assert((p - avg) * span <= d * span);
            lemma_div_is_ordered((p - avg) * span, d * span, d);
            assert(d * span == span * d) by (nonlinear_arith);
            lemma_div_multiples_vanish(span, d);
        }
        if p1 >= avg {
            lemma_mul_inequality(p1 - avg, p2 - avg, span);
            assert((p1 - avg) * span <= (p2 - avg) * span);
            lemma_div_is_ordered((p1 - avg) * span, (p2 - avg) * span, d);
        } else if p2 < avg {
            lemma_mul_inequality(avg - p2, avg - p1, span);
            assert((avg - p2) * span <= (avg - p1) * span);
            lemma_div_is_ordered((avg - p2) * span, (avg - p1) * span, d);
        } else {
            // p1 below the average, p2 at or above it: the first quantum
            // is at most the base value, the second at least it.
            lemma_div_pos_is_pos((avg - p1) * span, d);
            lemma_div_pos_is_pos((p2 - avg) * span, d);
        }
    }
}

/// The position, in a sequence of length `n`, of the `j`-th stop of a
/// cyclic scan that begins at `start`.
pub open spec fn spec_cyc(start: int, j: int, n: int) -> int {
    if start + j < n {
        start + j
    } else {
        start + j - n
    }
}

/// What one selection must return: `None` exactly when no registered
/// process is runnable; otherwise the first runnable process strictly
/// after the current one in ascending identifier order, wrapping around to
/// the smallest runnable process when nothing above the current one can
/// run. With no current process, the smallest runnable process is chosen.
pub open spec fn is_selection(m: Map<Pid, Process>, c: Option<Pid>, r: Option<Pid>) -> bool {
    match r {
        None => forall|k: Pid| m.dom().contains(k) ==> !spec_can_run(m[k]),
        Some(p) => runnable_in(m, p) && match c {
            None => forall|q: Pid| runnable_in(m, q) ==> p <= q,
            Some(cp) => if exists|q: Pid| runnable_in(m, q) && q > cp {
                p > cp && (forall|q: Pid| runnable_in(m, q) && q > cp ==> p <= q)
            } else {
                forall|q: Pid| runnable_in(m, q) ==> p <= q
            },
        },
    }
}

/// The first runnable process along `s`.
pub closed spec fn first_runnable(m: Map<Pid, Process>, s: Seq<Pid>) -> Option<Pid>
    decreases s.len(),
{
    if s.len() == 0 {
        None
    } else if spec_can_run(m[s[0]]) {
        Some(s[0])
    } else {
        first_runnable(m, s.subrange(1, s.len() as int))
    }
}

/// The first runnable process along `s` whose identifier is strictly
/// greater than `c`.
pub closed spec fn first_runnable_above(m: Map<Pid, Process>, s: Seq<Pid>, c: Pid) -> Option<Pid>
    decreases s.len(),
{
    if s.len() == 0 {
        None
    } else if s[0] > c && spec_can_run(m[s[0]]) {
        Some(s[0])
    } else {
        first_runnable_above(m, s.subrange(1, s.len() as int), c)
    }
}

/// The selection as a function of the registered map, its ascending key
/// sequence, and the current process.
pub closed spec fn spec_select(m: Map<Pid, Process>, s: Seq<Pid>, c: Option<Pid>) -> Option<Pid> {
    match c {
        None => first_runnable(m, s),
        Some(cp) => match first_runnable_above(m, s, cp) {
            Some(p) => Some(p),
            None => first_runnable(m, s),
        },
    }
}

/// True when `s` is the ascending key sequence of `m`.
pub open spec fn matches_keys(m: Map<Pid, Process>, s: Seq<Pid>) -> bool {
    &&& forall|i: int, j: int| 0 <= i < j < s.len() ==> s[i] < s[j]
    &&& forall|i: int| 0 <= i < s.len() ==> m.dom().contains(#[trigger] s[i])
    &&& forall|k: Pid| m.dom().contains(k) ==> s.contains(k)
}

/// What `first_runnable` returns: nothing when no entry of `s` is
/// runnable, else the entry at the first runnable position.
proof fn lemma_first_runnable(m: Map<Pid, Process>, s: Seq<Pid>)
    ensures
        match first_runnable(m, s) {
            None => forall|i: int| 0 <= i < s.len() ==> !spec_can_run(m[#[trigger] s[i]]),
            Some(p) => exists|i: int|
                0 <= i < s.len() && s[i] == p && spec_can_run(m[p]) && (forall|j: int|
                    0 <= j < i ==> !spec_can_run(m[#[trigger] s[j]])),
        },
    decreases s.len(),
{
    if s.len() == 0 {
    } else if spec_can_run(m[s[0]]) {
        assert(s[0] == first_runnable(m, s).unwrap());
    } else {
        let tail = s.subrange(1, s.len() as int);
        lemma_first_runnable(m, tail);
        match first_runnable(m, tail) {
            None => {
                assert forall|i: int| 0 <= i < s.len() implies !spec_can_run(m[#[trigger] s[i]]) by {
                    if i > 0 {
                        assert(tail[i - 1] == s[i]);
                    }
                }
            },
            Some(p) => {
                let i = choose|i: int|
                    0 <= i < tail.len() && tail[i] == p && spec_can_run(m[p]) && (forall|j: int|
                        0 <= j < i ==> !spec_can_run(m[#[trigger] tail[j]]));
                assert(s[i + 1] == p);
                assert forall|j: int| 0 <= j < i + 1 implies !spec_can_run(m[#[trigger] s[j]]) by {
                    if j > 0 {
                        assert(tail[j - 1] == s[j]);
                    }
                }
            },
        }
    }
}

/// The analogue of `lemma_first_runnable` for `first_runnable_above`.
proof fn lemma_first_runnable_above(m: Map<Pid, Process>, s: Seq<Pid>, c: Pid)
    ensures
        match first_runnable_above(m, s, c) {
            None => forall|i: int|
                0 <= i < s.len() && s[i] > c ==> !spec_can_run(m[#[trigger] s[i]]),
            Some(p) => p > c && exists|i: int|
                0 <= i < s.len() && s[i] == p && spec_can_run(m[p]) && (forall|j: int|
                    0 <= j < i && s[j] > c ==> !spec_can_run(m[#[trigger] s[j]])),
        },
    decreases s.len(),
{
    if s.len() == 0 {
    } else if s[0] > c && spec_can_run(m[s[0]]) {
        assert(s[0] == first_runnable_above(m, s, c).unwrap());
    } else {
        let tail = s.subrange(1, s.len() as int);
        lemma_first_runnable_above(m, tail, c);
        match first_runnable_above(m, tail, c) {
            None => {
                assert forall|i: int|
                    0 <= i < s.len() && s[i] > c implies !spec_can_run(m[#[trigger] s[i]]) by {
                    if i > 0 {
                        assert(tail[i - 1] == s[i]);
                    }
                }
            },
            Some(p) => {
                let i = choose|i: int|
                    0 <= i < tail.len() && tail[i] == p && spec_can_run(m[p]) && (forall|j: int|
                        0 <= j < i && tail[j] > c ==> !spec_can_run(m[#[trigger] tail[j]]));
                assert(s[i + 1] == p);
                assert forall|j: int|
                    0 <= j < i + 1 && s[j] > c implies !spec_can_run(m[#[trigger] s[j]]) by {
                    if j > 0 {
                        assert(tail[j - 1] == s[j]);
                    }
                }
            },
        }
    }
}

/// `spec_select` satisfies the selection law whenever `s` really is the
/// ascending key sequence of `m`.
pub proof fn lemma_select_is_selection(m: Map<Pid, Process>, s: Seq<Pid>, c: Option<Pid>)
    requires
        matches_keys(m, s),
    ensures
        is_selection(m, c, spec_select(m, s, c)),
{
    lemma_first_runnable(m, s);
    assert forall|q: Pid| runnable_in(m, q) implies s.contains(q) by {}
    match c {
        None => {
            match first_runnable(m, s) {
                None => {
                    assert forall|k: Pid| m.dom().contains(k) implies !spec_can_run(m[k]) by {
                        assert(s.contains(k));
                        let i = choose|i: int| 0 <= i < s.len() && s[i] == k;
                        assert(!spec_can_run(m[s[i]]));
                    }
                },
                Some(p) => {
                    let i = choose|i: int|
                        0 <= i < s.len() && s[i] == p && spec_can_run(m[p]) && (forall|j: int|
                            0 <= j < i ==> !spec_can_run(m[#[trigger] s[j]]));
                    assert forall|q: Pid| runnable_in(m, q) implies p <= q by {
                        assert(s.contains(q));
                        let jq = choose|jq: int| 0 <= jq < s.len() && s[jq] == q;
                        if jq < i {
                            assert(!spec_can_run(m[s[jq]]));
                        }
                    }
                },
            }
        },
        Some(cp) => {
            lemma_first_runnable_above(m, s, cp);
            match first_runnable_above(m, s, cp) {
                Some(p) => {
                    assert(runnable_in(m, p) && p > cp);
                    let i = choose|i: int|
                        0 <= i < s.len() && s[i] == p && spec_can_run(m[p]) && (forall|j: int|
                            0 <= j < i && s[j] > cp ==> !spec_can_run(m[#[trigger] s[j]]));
                    assert forall|q: Pid| runnable_in(m, q) && q > cp implies p <= q by {
                        assert(s.contains(q));
                        let jq = choose|jq: int| 0 <= jq < s.len() && s[jq] == q;
                        if jq < i {
                            assert(!spec_can_run(m[s[jq]]));
                        }
                    }
                },
                None => {
                    // Nothing runnable above `cp`: the overall first
                    // runnable process (if any) is the selection.
                    assert forall|q: Pid| !(runnable_in(m, q) && q > cp) by {
                        if runnable_in(m, q) && q > cp {
                            assert(s.contains(q));
                        let jq = choose|jq: int| 0 <= jq < s.len() && s[jq] == q;
                            assert(!spec_can_run(m[s[jq]]));
                        }
                    }
                    match first_runnable(m, s) {
                        None => {
                            assert forall|k: Pid| m.dom().contains(k) implies !spec_can_run(
                                m[k],
                            ) by {
                                assert(s.contains(k));
                                assert(s.contains(k));
                        let i = choose|i: int| 0 <= i < s.len() && s[i] == k;
                                assert(!spec_can_run(m[s[i]]));
                            }
                        },
                        Some(p) => {
                            let i = choose|i: int|
                                0 <= i < s.len() && s[i] == p && spec_can_run(m[p]) && (forall|
                                    j: int,
                                |
                                    0 <= j < i ==> !spec_can_run(m[#[trigger] s[j]]));
                            assert forall|q: Pid| runnable_in(m, q) implies p <= q by {
                                assert(s.contains(q));
                        let jq = choose|jq: int| 0 <= jq < s.len() && s[jq] == q;
                                if jq < i {
                                    assert(!spec_can_run(m[s[jq]]));
                                }
                            }
                        },
                    }
                },
            }
        },
    }
}

/// For a given map and current process there is exactly one selection.
pub proof fn lemma_selection_unique(
    m: Map<Pid, Process>,
    c: Option<Pid>,
    r1: Option<Pid>,
    r2: Option<Pid>,
)
    requires
        is_selection(m, c, r1),
        is_selection(m, c, r2),
    ensures
        r1 == r2,
{
}

/// The registered map after the outgoing process's quantum counter has
/// been reset: this happens when a process was current and either a
/// different process was selected or exactly one process is registered.
pub open spec fn spec_after_reset(
    m: Map<Pid, Process>,
    c: Option<Pid>,
    r: Option<Pid>,
) -> Map<Pid, Process> {
    match (r, c) {
        (Some(p), Some(cp)) => if (p != cp || m.dom().len() == 1) && m.dom().contains(cp) {
            m.insert(cp, (Process { quantum_count: 0, ..m[cp] }))
        } else {
            m
        },
        _ => m,
    }
}


/// The registered map after the tick's save step: a process that is
/// current and still registered receives the interrupted register state
/// and the syscall flag derived from the interrupted privilege ring.
pub open spec fn spec_save(
    m: Map<Pid, Process>,
    c: Option<Pid>,
    regs: Regs,
    ring: u32,
) -> Map<Pid, Process> {
    match c {
        Some(cp) => if m.dom().contains(cp) {
            m.insert(cp, (Process { regs: regs, syscalling: ring < 3, ..m[cp] }))
        } else {
            m
        },
        None => m,
    }
}

/// The registered map after the handoff step: the selected process's
/// quantum counter is incremented by one.
pub open spec fn spec_bump(m: Map<Pid, Process>, p: Pid) -> Map<Pid, Process>
    recommends
        m.dom().contains(p),
        m[p].quantum_count < usize::MAX,
{
    m.insert(p, (Process { quantum_count: (m[p].quantum_count + 1) as usize, ..m[p] }))
}


/// The complete state transition of one tick, as a function on the
/// registered map and the current-process mark: the save step, then the
/// selection, then the outgoing reset and the incoming quantum increment.
/// `tick` is proved to realize exactly this function.
pub open spec fn spec_tick_next(
    m: Map<Pid, Process>,
    s: Seq<Pid>,
    c: Option<Pid>,
    regs: Regs,
    ring: u32,
) -> (Map<Pid, Process>, Option<Pid>) {
    let m1 = spec_save(m, c, regs, ring);
    match spec_select(m1, s, c) {
        None => (m1, c),
        Some(p) => (spec_bump(spec_after_reset(m1, c, Some(p)), p), Some(p)),
    }
}

/// The scheduler state after `n` consecutive ticks with the same
/// interrupted context.
pub open spec fn spec_run(
    m: Map<Pid, Process>,
    s: Seq<Pid>,
    c: Option<Pid>,
    regs: Regs,
    ring: u32,
    n: nat,
) -> (Map<Pid, Process>, Option<Pid>)
    decreases n,
{
    if n == 0 {
        (m, c)
    } else {
        let prev = spec_run(m, s, c, regs, ring, (n - 1) as nat);
        spec_tick_next(prev.0, s, prev.1, regs, ring)
    }
}

/// The save, reset and bump steps of a tick touch only registers, flags
/// and quantum counters: the key set and every identifier, state and
/// priority field are unchanged.
pub proof fn lemma_tick_preserves_membership(
    m: Map<Pid, Process>,
    s: Seq<Pid>,
    c: Option<Pid>,
    regs: Regs,
    ring: u32,
)
    requires
        matches_keys(m, s),
    ensures
        spec_tick_next(m, s, c, regs, ring).0.dom() =~= m.dom(),
        forall|k: Pid|
            m.dom().contains(k) ==> {
                let r = #[trigger] spec_tick_next(m, s, c, regs, ring).0[k];
                r.state == m[k].state && r.priority == m[k].priority && r.pid == m[k].pid
            },
{
    let m1 = spec_save(m, c, regs, ring);
    assert(m1.dom() =~= m.dom());
    match spec_select(m1, s, c) {
        None => {},
        Some(p) => {
            assert(m.dom().contains(p)) by {
                assert(forall|k: Pid| m1.dom().contains(k) == m.dom().contains(k));
                assert(forall|k: Pid|
                    #[trigger] m1.dom().contains(k) ==> m1[k].state == m[k].state);
                lemma_select_agree(m1, m, s, c);
                lemma_select_is_selection(m, s, c);
            }
            let m2 = spec_after_reset(m1, c, Some(p));
            assert(m2.dom() =~= m.dom());
            assert(spec_bump(m2, p).dom() =~= m.dom());
        },
    }
}

/// Selection depends only on which processes are registered and on their
/// states, not on registers, flags or quantum counters.
proof fn lemma_select_agree(
    m1: Map<Pid, Process>,
    m2: Map<Pid, Process>,
    s: Seq<Pid>,
    c: Option<Pid>,
)
    requires
        m1.dom() == m2.dom(),
        forall|k: Pid| m1.dom().contains(k) ==> m1[k].state == m2[k].state,
        forall|i: int| 0 <= i < s.len() ==> m1.dom().contains(#[trigger] s[i]),
    ensures
        spec_select(m1, s, c) == spec_select(m2, s, c),
{
    lemma_first_runnable_agree(m1, m2, s);
    match c {
        None => {},
        Some(cp) => {
            lemma_first_runnable_above_agree(m1, m2, s, cp);
        },
    }
}

/// Helper for `lemma_select_agree`: `first_runnable` only reads states.
proof fn lemma_first_runnable_agree(m1: Map<Pid, Process>, m2: Map<Pid, Process>, s: Seq<Pid>)
    requires
        forall|i: int| 0 <= i < s.len() ==> m1[#[trigger] s[i]].state == m2[s[i]].state,
    ensures
        first_runnable(m1, s) == first_runnable(m2, s),
    decreases s.len(),
{
    if s.len() != 0 && !spec_can_run(m1[s[0]]) {
        let tail = s.subrange(1, s.len() as int);
        assert(forall|i: int| 0 <= i < tail.len() ==> tail[i] == s[i + 1]);
        lemma_first_runnable_agree(m1, m2, tail);
    }
}

/// Helper for `lemma_select_agree`: `first_runnable_above` only reads
/// states.
proof fn lemma_first_runnable_above_agree(
    m1: Map<Pid, Process>,
    m2: Map<Pid, Process>,
    s: Seq<Pid>,
    c: Pid,
)
    requires
        forall|i: int| 0 <= i < s.len() ==> m1[#[trigger] s[i]].state == m2[s[i]].state,
    ensures
        first_runnable_above(m1, s, c) == first_runnable_above(m2, s, c),
    decreases s.len(),
{
    if s.len() != 0 && !(s[0] > c && spec_can_run(m1[s[0]])) {
        let tail = s.subrange(1, s.len() as int);
        assert(forall|i: int| 0 <= i < tail.len() ==> tail[i] == s[i + 1]);
        lemma_first_runnable_above_agree(m1, m2, tail, c);
    }
}

/// Round-robin fairness of the selection function: when every registered
/// process is runnable, the process selected with no current process is
/// the one with the smallest identifier, and the process selected after
/// the one at position `i` of the ascending key sequence is the one at
/// position `i + 1`, wrapping to position 0 after the last.
pub proof fn lemma_round_robin_selection(m: Map<Pid, Process>, s: Seq<Pid>)
    requires
        matches_keys(m, s),
        s.len() > 0,
        forall|k: Pid| m.dom().contains(k) ==> spec_can_run(m[k]),
    ensures
        spec_select(m, s, None) == Some(s[0]),
        forall|i: int|
            0 <= i < s.len() - 1 ==> #[trigger] spec_select(m, s, Some(s[i])) == Some(s[i + 1]),
        spec_select(m, s, Some(s[s.len() - 1])) == Some(s[0]),
{
    lemma_select_is_selection(m, s, None);
    assert(is_selection(m, None, Some(s[0]))) by {
        assert forall|q: Pid| runnable_in(m, q) implies s[0] <= q by {
            assert(s.contains(q));
            let jq = choose|jq: int| 0 <= jq < s.len() && s[jq] == q;
            if jq > 0 {
                assert(s[0] < s[jq]);
            }
        }
    }
    lemma_selection_unique(m, None, spec_select(m, s, None), Some(s[0]));
    assert forall|i: int| 0 <= i < s.len() - 1 implies #[trigger] spec_select(m, s, Some(s[i]))
        == Some(s[i + 1]) by {
        lemma_select_is_selection(m, s, Some(s[i]));
        assert(is_selection(m, Some(s[i]), Some(s[i + 1]))) by {
            assert(runnable_in(m, s[i + 1]) && s[i + 1] > s[i]);
            assert forall|q: Pid| runnable_in(m, q) && q > s[i] implies s[i + 1] <= q by {
                assert(s.contains(q));
                let jq = choose|jq: int| 0 <= jq < s.len() && s[jq] == q;
                assert(jq > i);
                if jq > i + 1 {
                    assert(s[i + 1] < s[jq]);
                }
            }
        }
        lemma_selection_unique(m, Some(s[i]), spec_select(m, s, Some(s[i])), Some(s[i + 1]));
    }
    let last = s[s.len() - 1];
    lemma_select_is_selection(m, s, Some(last));
    assert(is_selection(m, Some(last), Some(s[0]))) by {
        assert forall|q: Pid| !(runnable_in(m, q) && q > last) by {
            if runnable_in(m, q) && q > last {
                assert(s.contains(q));
                let jq = choose|jq: int| 0 <= jq < s.len() && s[jq] == q;
                if jq < s.len() - 1 {
                    assert(s[jq] < last);
                }
            }
        }
        assert forall|q: Pid| runnable_in(m, q) implies s[0] <= q by {
            assert(s.contains(q));
            let jq = choose|jq: int| 0 <= jq < s.len() && s[jq] == q;
            if jq > 0 {
                assert(s[0] < s[jq]);
            }
        }
    }
    lemma_selection_unique(m, Some(last), spec_select(m, s, Some(last)), Some(s[0]));
}

/// Round-robin fairness across consecutive ticks: with every process
/// runnable and no process current, the first `n` ticks mark the
/// processes current in ascending identifier order, so `n` ticks over `n`
/// processes visit each exactly once. (The interrupted register state is
/// irrelevant to the order; `lemma_select_agree` states why.)
pub proof fn lemma_round_robin_ticks(
    m: Map<Pid, Process>,
    s: Seq<Pid>,
    regs: Regs,
    ring: u32,
    n: int,
)
    requires
        matches_keys(m, s),
        0 < n <= s.len(),
        forall|k: Pid| m.dom().contains(k) ==> spec_can_run(m[k]),
    ensures
        spec_run(m, s, None, regs, ring, n as nat).1 == Some(s[n - 1]),
        spec_run(m, s, None, regs, ring, n as nat).0.dom() =~= m.dom(),
        forall|k: Pid|
            m.dom().contains(k) ==> #[trigger] spec_run(
                m,
                s,
                None,
                regs,
                ring,
                n as nat,
            ).0[k].state == m[k].state,
    decreases n,
{
    lemma_round_robin_selection(m, s);
    if n == 1 {
        let m1 = spec_save(m, None, regs, ring);
        assert(m1 == m);
        lemma_tick_preserves_membership(m, s, None, regs, ring);
    } else {
        lemma_round_robin_ticks(m, s, regs, ring, n - 1);
        let prev = spec_run(m, s, None, regs, ring, (n - 1) as nat);
        let mp = prev.0;
        assert(prev.1 == Some(s[n - 2]));
        let m1 = spec_save(mp, prev.1, regs, ring);
        assert(m1.dom() =~= mp.dom());
        assert(forall|k: Pid| #[trigger] m.dom().contains(k) ==> m1[k].state == m[k].state);
        lemma_select_agree(m1, m, s, prev.1);
        assert(spec_select(m1, s, prev.1) == Some(s[n - 1]));
        lemma_tick_preserves_membership(mp, s, prev.1, regs, ring);
    }
}

/// Wraparound: when nothing at or above the current identifier is
/// runnable but some process is, the selection wraps to the smallest
/// runnable process.
pub proof fn lemma_wraparound(m: Map<Pid, Process>, s: Seq<Pid>, cp: Pid)
    requires
        matches_keys(m, s),
        forall|q: Pid| runnable_in(m, q) ==> q <= cp,
        exists|q: Pid| runnable_in(m, q),
    ensures
        ({
            let r = spec_select(m, s, Some(cp));
            &&& r.is_some()
            &&& runnable_in(m, r.unwrap())
            &&& forall|q: Pid| runnable_in(m, q) ==> r.unwrap() <= q
        }),
{
    lemma_select_is_selection(m, s, Some(cp));
    let r = spec_select(m, s, Some(cp));
    if r.is_none() {
        let q = choose|q: Pid| runnable_in(m, q);
        assert(!spec_can_run(m[q]));
    }
}

/// Outgoing-quantum reset: when a tick moves the CPU from current process
/// `a` to a different process, `a`'s quantum counter is zero afterwards,
/// so `a` starts counting afresh the next time it is selected.
pub proof fn lemma_outgoing_quantum_reset(
    m: Map<Pid, Process>,
    s: Seq<Pid>,
    a: Pid,
    regs: Regs,
    ring: u32,
)
    requires
        m.dom().contains(a),
        ({
            let sel = spec_select(spec_save(m, Some(a), regs, ring), s, Some(a));
            sel.is_some() && sel != Some(a)
        }),
    ensures
        spec_tick_next(m, s, Some(a), regs, ring).0[a].quantum_count == 0,
{
    let m1 = spec_save(m, Some(a), regs, ring);
    let p = spec_select(m1, s, Some(a)).unwrap();
    let m2 = spec_after_reset(m1, Some(a), Some(p));
    assert(m2[a].quantum_count == 0);
    assert(spec_bump(m2, p)[a].quantum_count == 0);
}

/// Removing the current process does not disturb the next tick: the
/// selection never returns the stale identifier, and when some other
/// process is runnable one is selected.
pub proof fn lemma_stale_current(
    m: Map<Pid, Process>,
    s: Seq<Pid>,
    a: Pid,
    regs: Regs,
    ring: u32,
)
    requires
        matches_keys(m, s),
        !m.dom().contains(a),
    ensures
        ({
            let sel = spec_select(spec_save(m, Some(a), regs, ring), s, Some(a));
            &&& match sel {
                Some(p) => p != a && runnable_in(m, p),
                None => forall|k: Pid| m.dom().contains(k) ==> !spec_can_run(m[k]),
            }
        }),
{
    let m1 = spec_save(m, Some(a), regs, ring);
    assert(m1 == m);
    lemma_select_is_selection(m, s, Some(a));
}

/// An empty index selects nothing: the tick takes the idle path.
pub proof fn lemma_idle_on_empty(
    m: Map<Pid, Process>,
    s: Seq<Pid>,
    c: Option<Pid>,
    regs: Regs,
    ring: u32,
)
    requires
        m.dom() =~= Set::empty(),
        s.len() == 0,
    ensures
        spec_select(spec_save(m, c, regs, ring), s, c) == None::<Pid>,
        spec_tick_next(m, s, c, regs, ring).1 == c,
{
}

/// The structure representing the process scheduler.
pub struct Scheduler {
    /// One context-switch data slot per CPU core.
    ctx_switch_data: Vec<Option<ContextSwitchData>>,
    /// The total number of ticks since the scheduler was created.
    total_ticks: u64,
    /// The ordered index of all registered processes, keyed by identifier.
    processes: BinaryTree<Process>,
    /// The identifier of the currently running process, if any. It may
    /// refer to a process that has since been removed from the index.
    curr_proc: Option<Pid>,
    /// The sum of all registered priorities.
    priority_sum: usize,
    /// An upper bound on the highest registered priority. It never
    /// decreases, so it may stay above the true maximum after a removal.
    priority_max: usize,
}

impl Scheduler {
    /// The registered processes, as a map from identifier to record.
    pub closed spec fn procs(self) -> Map<Pid, Process> {
        self.processes@
    }

    /// The identifiers of the registered processes, in ascending order.
    pub closed spec fn keys(self) -> Seq<Pid> {
        self.processes.spec_key_seq()
    }

    /// The identifier of the current process, if one is marked current.
    pub closed spec fn current(self) -> Option<Pid> {
        self.curr_proc
    }

    /// The total number of ticks so far.
    pub closed spec fn ticks(self) -> u64 {
        self.total_ticks
    }

    /// The tracked sum of all registered priorities.
    pub closed spec fn prio_sum_val(self) -> usize {
        self.priority_sum
    }

    /// The tracked upper bound on the highest registered priority.
    pub closed spec fn prio_max_val(self) -> usize {
        self.priority_max
    }

    /// The per-core context-switch slots, reduced to the process each one
    /// names.
    pub closed spec fn slot_pids(self) -> Seq<Option<Pid>> {
        self.ctx_switch_data@.map_values(
            |d: Option<ContextSwitchData>|
                match d {
                    Some(c) => Some(c.pid),
                    None => None,
                },
        )
    }

    /// True when the two scheduler values hold the same process index and
    /// the same per-core slots.
    pub closed spec fn same_structures(self, other: Scheduler) -> bool {
        self.processes == other.processes && self.ctx_switch_data == other.ctx_switch_data
    }

    /// Well-formedness: the index is a valid red-black tree, every record
    /// is stored under its own identifier, the tracked sum is the exact
    /// sum of all priorities, the tracked maximum bounds every priority,
    /// and there is at least one per-core slot.
    pub closed spec fn well_formed(self) -> bool {
        &&& self.processes.well_formed()
        &&& forall|k: Pid| self.procs().dom().contains(k) ==> self.procs()[k].pid == k
        &&& self.priority_sum == prio_sum(self.procs().dom(), self.procs())
        &&& forall|k: Pid|
            self.procs().dom().contains(k) ==> self.procs()[k].priority <= self.priority_max
        &&& self.ctx_switch_data.len() >= 1
    }

    /// Creates a new scheduler for the given number of CPU cores, with no
    /// registered process, no current process and zeroed statistics.
    pub fn new(cores_count: usize) -> (r: Scheduler)
        requires
            cores_count >= 1,
        ensures
            r.well_formed(),
            r.procs() == Map::<Pid, Process>::empty(),
            r.current().is_none(),
            r.ticks() == 0,
            r.prio_sum_val() == 0,
            r.prio_max_val() == 0,
            r.slot_pids().len() == cores_count,
            forall|i: int| 0 <= i < cores_count ==> r.slot_pids()[i].is_none(),
    {
        let mut ctx_switch_data: Vec<Option<ContextSwitchData>> = Vec::new();
        let mut i: usize = 0;
        while i < cores_count
            invariant
                i <= cores_count,
                ctx_switch_data@.len() == i,
                forall|j: int| 0 <= j < i ==> ctx_switch_data@[j].is_none(),
            decreases cores_count - i,
        {
            ctx_switch_data.push(None);
            i = i + 1;
        }
        let r = Scheduler {
            ctx_switch_data,
            total_ticks: 0,
            processes: BinaryTree::new(),
            curr_proc: None,
            priority_sum: 0,
            priority_max: 0,
        };
        proof {
            assert(r.procs().dom() =~= Set::empty());
            assert(prio_sum(r.procs().dom(), r.procs()) == 0);
        }
        r
    }

    /// Returns the number of processes registered on the scheduler.
    pub fn get_processes_count(&self) -> (r: usize)
        requires
            self.well_formed(),
        ensures
            r == self.procs().dom().len(),
    {
        self.processes.count()
    }

    /// Returns the registered process identifiers in ascending order.
    pub fn get_process_pids(&self) -> (r: Vec<Pid>)
        requires
            self.well_formed(),
        ensures
            r@ == self.keys(),
            r@.len() == self.procs().dom().len(),
            forall|i: int, j: int| 0 <= i < j < r@.len() ==> r@[i] < r@[j],
            forall|i: int| 0 <= i < r@.len() ==> self.procs().dom().contains(#[trigger] r@[i]),
            forall|k: Pid| self.procs().dom().contains(k) ==> r@.contains(k),
    {
        self.processes.in_order_keys()
    }

    /// Returns the record of the process with the given identifier, if it
    /// is registered.
    pub fn get_by_pid(&self, pid: Pid) -> (r: Option<&Process>)
        requires
            self.well_formed(),
        ensures
            match r {
                Some(p) => self.procs().dom().contains(pid) && *p == self.procs()[pid],
                None => !self.procs().dom().contains(pid),
            },
    {
        self.processes.get(pid)
    }

    /// Returns the record of the current process, if one is marked current
    /// and still registered.
    ///
    /// Process records are owned by the index, not shared by handle, so
    /// once the current process has been removed there is no record left
    /// to return: the function then deliberately reports no current
    /// process, although the current-process mark itself still names the
    /// removed identifier until the next selection.
    pub fn get_current_process(&self) -> (r: Option<&Process>)
        requires
            self.well_formed(),
        ensures
            match r {
                Some(p) => {
                    &&& self.current() == Some(p.pid)
                    &&& self.procs().dom().contains(p.pid)
                    &&& *p == self.procs()[p.pid]
                },
                None => match self.current() {
                    Some(cp) => !self.procs().dom().contains(cp),
                    None => true,
                },
            },
    {
        match self.curr_proc {
            Some(cp) => self.processes.get(cp),
            None => None,
        }
    }

    /// Returns the total number of ticks since the scheduler was created.
    pub fn get_total_ticks(&self) -> (r: u64)
        ensures
            r == self.ticks(),
    {
        self.total_ticks
    }

    /// Updates the tracked priority statistics after one priority changed
    /// from `old_priority` to `new_priority`: the sum moves by the
    /// difference and the maximum never decreases.
    ///
    /// This adjusts the statistics alone; the caller is responsible for
    /// the matching change of a process record (`set_priority` does both).
    pub fn update_priority(&mut self, old_priority: usize, new_priority: usize)
        requires
            old_priority <= old(self).prio_sum_val(),
            old(self).prio_sum_val() - old_priority + new_priority <= usize::MAX,
        ensures
            final(self).prio_sum_val() == old(self).prio_sum_val() - old_priority + new_priority,
            final(self).prio_max_val() == if new_priority >= old(self).prio_max_val() {
                new_priority
            } else {
                old(self).prio_max_val()
            },
            final(self).procs() == old(self).procs(),
            final(self).keys() == old(self).keys(),
            final(self).current() == old(self).current(),
            final(self).ticks() == old(self).ticks(),
            final(self).slot_pids() == old(self).slot_pids(),
            final(self).same_structures(*old(self)),
    {
        self.priority_sum = self.priority_sum - old_priority + new_priority;
        if new_priority >= self.priority_max {
            self.priority_max = new_priority;
        }
    }

    /// Registers a process. A process whose identifier is already present
    /// is rejected.
    pub fn add_process(&mut self, process: Process) -> (r: Result<Pid, SchedError>)
        requires
            old(self).well_formed(),
            old(self).prio_sum_val() + process.priority <= usize::MAX,
            old(self).procs().dom().len() < usize::MAX,
        ensures
            final(self).well_formed(),
            final(self).current() == old(self).current(),
            final(self).ticks() == old(self).ticks(),
            final(self).slot_pids() == old(self).slot_pids(),
            match r {
                Ok(pid) => {
                    &&& pid == process.pid
                    &&& !old(self).procs().dom().contains(pid)
                    &&& final(self).procs() == old(self).procs().insert(pid, process)
                    &&& final(self).prio_sum_val() == old(self).prio_sum_val() + process.priority
                    &&& final(self).prio_max_val() == if process.priority >= old(
                        self,
                    ).prio_max_val() {
                        process.priority
                    } else {
                        old(self).prio_max_val()
                    }
                },
                Err(e) => {
                    &&& e == SchedError::AlreadyRegistered
                    &&& old(self).procs().dom().contains(process.pid)
                    &&& final(self).procs() == old(self).procs()
                    &&& final(self).prio_sum_val() == old(self).prio_sum_val()
                    &&& final(self).prio_max_val() == old(self).prio_max_val()
                },
            },
    {
        let pid = process.pid;
        let priority = process.priority;
        let ghost m0 = self.procs();
        match self.processes.insert(pid, process) {
            Ok(()) => {
                proof {
                    old(self).processes.lemma_well_formed_props();
                    self.processes.lemma_well_formed_props();
                    lemma_prio_sum_agree(m0.dom(), m0, self.procs());
                    lemma_prio_sum_pick(self.procs().dom(), self.procs(), pid);
                    assert(self.procs().dom().remove(pid) =~= m0.dom());
                    lemma_prio_sum_member(m0.dom(), m0);
                }
                self.update_priority(0, priority);
                Ok(pid)
            },
            Err(_) => Err(SchedError::AlreadyRegistered),
        }
    }

    /// Removes the process with the given identifier, if it is registered,
    /// and updates the priority statistics. The current-process mark is
    /// left as it is, even when it names the removed process.
    pub fn remove_process(&mut self, pid: Pid)
        requires
            old(self).well_formed(),
        ensures
            final(self).well_formed(),
            final(self).procs() == old(self).procs().remove(pid),
            final(self).current() == old(self).current(),
            final(self).ticks() == old(self).ticks(),
            final(self).slot_pids() == old(self).slot_pids(),
            final(self).prio_sum_val() == old(self).prio_sum_val() - (if old(
                self,
            ).procs().dom().contains(pid) {
                old(self).procs()[pid].priority as int
            } else {
                0
            }),
            final(self).prio_max_val() == old(self).prio_max_val(),
    {
        let ghost m0 = self.procs();
        let priority = match self.processes.get(pid) {
            Some(p) => p.priority,
            None => {
                proof {
                    assert(m0.remove(pid) =~= m0);
                }
                return ;
            },
        };
        proof {
            old(self).processes.lemma_well_formed_props();
            lemma_prio_sum_member(m0.dom(), m0);
            lemma_prio_sum_pick(m0.dom(), m0, pid);
        }
        self.processes.remove(pid);
        proof {
            self.processes.lemma_well_formed_props();
            lemma_prio_sum_agree(self.procs().dom(), m0, self.procs());
            assert(self.procs().dom() =~= m0.dom().remove(pid));
        }
        self.update_priority(priority, 0);
    }


    /// Runs the selection algorithm: starting strictly after the current
    /// process (or at the smallest identifier when none is current), the
    /// registered processes are examined in ascending cyclic order, at
    /// most one full cycle, and the first runnable one is returned. When a
    /// process is selected and it differs from the current one, or exactly
    /// one process is registered, the outgoing (current) process's quantum
    /// counter is reset to zero.
    #[verifier::rlimit(100)]
    pub fn get_next_process(&mut self) -> (r: Option<Pid>)
        requires
            old(self).well_formed(),
        ensures
            final(self).well_formed(),
            r == spec_select(old(self).procs(), old(self).keys(), old(self).current()),
            is_selection(old(self).procs(), old(self).current(), r),
            final(self).procs() == spec_after_reset(
                old(self).procs(),
                old(self).current(),
                r,
            ),
            final(self).keys() == old(self).keys(),
            final(self).current() == old(self).current(),
            final(self).ticks() == old(self).ticks(),
            final(self).slot_pids() == old(self).slot_pids(),
            final(self).prio_sum_val() == old(self).prio_sum_val(),
            final(self).prio_max_val() == old(self).prio_max_val(),
    {
        proof {
            self.processes.lemma_well_formed_props();
        }
        let ghost m = self.procs();
        let ghost ks = self.keys();
        let ghost c = self.curr_proc;
        let count = self.processes.count();
        if count == 0 {
            proof {
                assert(ks.len() == 0);
                lemma_select_is_selection(m, ks, c);
                lemma_selection_unique(m, c, spec_select(m, ks, c), None);
                assert(spec_after_reset(m, c, None) == m);
            }
            return None;
        }
        let keys = self.processes.in_order_keys();
        let n = keys.len();
        // Position of the first identifier strictly above the current one;
        // the cyclic scan begins there.
        let mut start: usize = 0;
        if let Some(cp) = self.curr_proc {
            while start < n && keys[start] <= cp
                invariant
                    start <= n,
                    n == keys@.len(),
                    keys@ == ks,
                    forall|j: int| 0 <= j < start ==> ks[j] <= cp,
                decreases n - start,
            {
                start = start + 1;
            }
        }
        proof {
            if c.is_some() {
                assert forall|j: int| start <= j < n implies ks[j] > c.unwrap() by {
                    if j > start {
                        assert(ks[start as int] < ks[j]);
                    }
                }
            } else {
                assert(start == 0);
            }
        }
        let mut i: usize = 0;
        let mut found: Option<Pid> = None;
        let ghost mut fidx: int = 0;
        while i < n && found.is_none()
            invariant
                self.well_formed(),
                m == self.procs(),
                ks == self.keys(),
                i <= n,
                n == keys@.len(),
                keys@ == ks,
                n == m.dom().len(),
                start <= n,
                forall|i2: int| 0 <= i2 < n ==> m.dom().contains(#[trigger] ks[i2]),
                forall|i2: int, j2: int| 0 <= i2 < j2 < n ==> ks[i2] < ks[j2],
                forall|k: Pid| m.dom().contains(k) ==> ks.contains(k),
                match c {
                    Some(cp) => (forall|j: int| 0 <= j < start ==> ks[j] <= cp) && (forall|j: int|
                        start <= j < n ==> ks[j] > cp),
                    None => start == 0,
                },
                match found {
                    None => forall|j: int|
                        0 <= j < i ==> !spec_can_run(m[ks[#[trigger] spec_cyc(
                            start as int,
                            j,
                            n as int,
                        )]]),
                    Some(p) => {
                        &&& 0 <= fidx < n
                        &&& p == ks[spec_cyc(start as int, fidx, n as int)]
                        &&& spec_can_run(m[p])
                        &&& m.dom().contains(p)
                        &&& forall|j: int|
                            0 <= j < fidx ==> !spec_can_run(m[ks[#[trigger] spec_cyc(
                                start as int,
                                j,
                                n as int,
                            )]])
                    },
                },
            decreases n - i,
        {
            let idx = if i < n - start {
                start + i
            } else {
                i - (n - start)
            };
            proof {
                assert(idx == spec_cyc(start as int, i as int, n as int));
            }
            let k = keys[idx];
            let record = self.processes.get(k).unwrap();
            if matches!(record.state, State::Running) {
                found = Some(k);
                proof {
                    fidx = i as int;
                }
            }
            i = i + 1;
        }
        proof {
            let n = n as int;
            let start = start as int;
            match found {
                None => {
                    assert forall|k: Pid| m.dom().contains(k) implies !spec_can_run(m[k]) by {
                        assert(ks.contains(k));
                        let jq = choose|jq: int| 0 <= jq < ks.len() && ks[jq] == k;
                        let j = if jq >= start {
                            jq - start
                        } else {
                            jq + n - start
                        };
                        assert(jq == spec_cyc(start, j, n));
                        assert(!spec_can_run(m[ks[spec_cyc(start, j, n)]]));
                    }
                },
                Some(p) => {
                    let fi = spec_cyc(start, fidx, n);
                    match c {
                        None => {
                            assert forall|q: Pid| runnable_in(m, q) implies p <= q by {
                                assert(ks.contains(q));
                                let jq = choose|jq: int| 0 <= jq < ks.len() && ks[jq] == q;
                                if jq < fi {
                                    assert(jq == spec_cyc(start, jq, n));
                                    assert(!spec_can_run(m[ks[spec_cyc(start, jq, n)]]));
                                } else if jq > fi {
                                    assert(ks[fi] < ks[jq]);
                                }
                            }
                        },
                        Some(cp) => {
                            if fidx < n - start {
                                // Found before wrapping: the selection is
                                // above the current process.
                                assert(fi == start + fidx);
                                assert(p > cp);
                                assert(runnable_in(m, p) && p > cp);
                                assert forall|q: Pid| runnable_in(m, q) && q > cp implies p
                                    <= q by {
                                    assert(ks.contains(q));
                                    let jq = choose|jq: int| 0 <= jq < ks.len() && ks[jq] == q;
                                    if jq < start {
                                        assert(ks[jq] <= cp);
                                    } else if jq < fi {
                                        assert(jq == spec_cyc(start, jq - start, n));
                                        assert(!spec_can_run(m[ks[spec_cyc(start, jq - start, n)]]));
                                    } else if jq > fi {
                                        assert(ks[fi] < ks[jq]);
                                    }
                                }
                            } else {
                                // Found after wrapping: nothing above the
                                // current process is runnable, and the
                                // selection is the least runnable process.
                                assert(fi == fidx - (n - start));
                                assert(fi < start);
                                assert forall|q: Pid| !(runnable_in(m, q) && q > cp) by {
                                    if runnable_in(m, q) && q > cp {
                                        assert(ks.contains(q));
                                        let jq = choose|jq: int| 0 <= jq < ks.len() && ks[jq] == q;
                                        assert(jq >= start);
                                        assert(jq == spec_cyc(start, jq - start, n));
                                        assert(jq - start < n - start);
                                        assert(!spec_can_run(m[ks[spec_cyc(start, jq - start, n)]]));
                                    }
                                }
                                assert forall|q: Pid| runnable_in(m, q) implies p <= q by {
                                    assert(ks.contains(q));
                                    let jq = choose|jq: int| 0 <= jq < ks.len() && ks[jq] == q;
                                    assert(jq < start);
                                    if jq < fi {
                                        assert(jq == spec_cyc(start, jq + n - start, n));
                                        assert(jq + n - start < fidx);
                                        assert(!spec_can_run(
                                            m[ks[spec_cyc(start, jq + n - start, n)]],
                                        ));
                                    } else if jq > fi {
                                        assert(ks[fi] < ks[jq]);
                                    }
                                }
                            }
                        },
                    }
                },
            }
            assert(is_selection(m, c, found));
            lemma_select_is_selection(m, ks, c);
            lemma_selection_unique(m, c, found, spec_select(m, ks, c));
        }
        // Reset the outgoing process's quantum counter when the CPU moves
        // to a different process, or when it is the only process left.
        if let Some(p) = found {
            if let Some(cp) = self.curr_proc {
                if p != cp || count == 1 {
                    match self.processes.get(cp) {
                        Some(cur) => {
                            let mut outgoing = *cur;
                            outgoing.quantum_count = 0;
                            let ghost m0 = self.procs();
                            let _ = self.processes.set_value(cp, outgoing);
                            proof {
                                self.processes.lemma_well_formed_props();
                                assert(self.procs().dom() =~= m0.dom());
                                lemma_prio_sum_agree(m0.dom(), m0, self.procs());
                            }
                        },
                        None => {},
                    }
                }
            }
        }
        proof {
            assert(final(self).procs() == spec_after_reset(m, c, found));
        }
        found
    }


    /// Returns the average priority of a process, the priority sum divided
    /// by the number of processes.
    pub fn get_average_priority(priority_sum: usize, processes_count: usize) -> (r: usize)
        requires
            processes_count > 0,
        ensures
            r == spec_average(priority_sum as int, processes_count as int),
    {
        priority_sum / processes_count
    }

    /// Returns the number of quanta for the given priority: the linear
    /// interpolation described by `spec_quantum`, always at least one tick
    /// and, for priorities up to the maximum, at most
    /// `MAX_PRIORITY_QUANTA`.
    pub fn get_quantum_count(
        priority: usize,
        priority_sum: usize,
        priority_max: usize,
        processes_count: usize,
    ) -> (r: usize)
        requires
            processes_count > 0,
            priority_sum <= priority_max * processes_count,
            priority <= priority_max,
        ensures
            r == spec_quantum(
                priority as int,
                priority_sum as int,
                priority_max as int,
                processes_count as int,
            ),
            1 <= r <= MAX_PRIORITY_QUANTA,
    {
        proof {
            lemma_quantum_monotonic(
                priority as int,
                priority as int,
                priority_sum as int,
                priority_max as int,
                processes_count as int,
            );
        }
        let avg = priority_sum / processes_count;
        let span = (MAX_PRIORITY_QUANTA - AVERAGE_PRIORITY_QUANTA) as u128;
        if avg >= priority_max {
            MAX_PRIORITY_QUANTA
        } else if priority >= avg {
            let num = (priority - avg) as u128 * span;
            let q = num / ((priority_max - avg) as u128);
            proof {
                assert(q == (priority as int - avg as int) * (span as int) / (priority_max as int
                    - avg as int));
            }
            AVERAGE_PRIORITY_QUANTA + (q as usize)
        } else {
            let num = (avg - priority) as u128 * span;
            let shortfall = num / ((priority_max - avg) as u128);
            proof {
                assert(shortfall == (avg as int - priority as int) * (span as int) / (
                priority_max as int - avg as int));
            }
            if shortfall >= (AVERAGE_PRIORITY_QUANTA as u128) {
                1
            } else {
                AVERAGE_PRIORITY_QUANTA - (shortfall as usize)
            }
        }
    }

    /// Tells whether the given process can run: only a process in the
    /// `Running` state is schedulable. The statistics arguments mirror the
    /// selection context and do not influence the answer.
    ///
    /// Quantum exhaustion deliberately does not enter the predicate: the
    /// traversal order already examines every other runnable process
    /// before returning to the current one, and a sole runnable process
    /// must be allowed to keep the CPU past its nominal quantum rather
    /// than idle the machine. Exhaustion is instead handled by the
    /// outgoing reset when the CPU moves on.
    pub fn can_run(
        process: &Process,
        _priority_sum: usize,
        _priority_max: usize,
        _processes_count: usize,
    ) -> (r: bool)
        ensures
            r == spec_can_run(*process),
    {
        matches!(process.state, State::Running)
    }


    /// One timer tick: the total tick counter advances, the current
    /// process's registers and syscall flag are saved into its record, the
    /// next runnable process is selected (resetting the outgoing quantum
    /// counter as `spec_after_reset` describes), and, when a process was
    /// selected, it is marked current, its quantum counter advances, the
    /// first core's context-switch slot is filled and the handoff data is
    /// returned. When nothing is runnable the idle outcome is returned and
    /// nothing but the saved record changes.
    pub fn tick(&mut self, regs: &Regs, ring: u32) -> (r: TickOutcome)
        requires
            old(self).well_formed(),
            old(self).ticks() < u64::MAX,
            ({
                let m1 = spec_save(old(self).procs(), old(self).current(), *regs, ring);
                match spec_select(m1, old(self).keys(), old(self).current()) {
                    Some(p) => (old(self).current() == Some(p) && old(self).procs().dom().len()
                        == 1) || m1[p].quantum_count < usize::MAX,
                    None => true,
                }
            }),
        ensures
            final(self).well_formed(),
            final(self).ticks() == old(self).ticks() + 1,
            final(self).prio_sum_val() == old(self).prio_sum_val(),
            final(self).prio_max_val() == old(self).prio_max_val(),
            final(self).keys() == old(self).keys(),
            (final(self).procs(), final(self).current()) == spec_tick_next(
                old(self).procs(),
                old(self).keys(),
                old(self).current(),
                *regs,
                ring,
            ),
            ({
                let m1 = spec_save(old(self).procs(), old(self).current(), *regs, ring);
                let sel = spec_select(m1, old(self).keys(), old(self).current());
                &&& is_selection(m1, old(self).current(), sel)
                &&& match sel {
                    None => {
                        &&& r == TickOutcome::Idle
                        &&& final(self).procs() == m1
                        &&& final(self).current() == old(self).current()
                        &&& final(self).slot_pids() == old(self).slot_pids()
                    },
                    Some(p) => {
                        let m2 = spec_after_reset(m1, old(self).current(), Some(p));
                        &&& final(self).current() == Some(p)
                        &&& final(self).procs() == spec_bump(m2, p)
                        &&& final(self).slot_pids() == old(self).slot_pids().update(0, Some(p))
                        &&& r == TickOutcome::Switch(ContextSwitch {
                            pid: p,
                            regs: final(self).procs()[p].regs,
                            syscalling: final(self).procs()[p].syscalling,
                            kernel_stack: final(self).procs()[p].kernel_stack,
                            mem_space: final(self).procs()[p].mem_space,
                            signal_pending: final(self).procs()[p].pending_signal,
                        })
                    },
                }
            }),
    {
        proof {
            old(self).processes.lemma_well_formed_props();
        }
        let ghost m0 = self.procs();
        let ghost c0 = self.curr_proc;
        let ghost ks = self.keys();
        self.total_ticks = self.total_ticks + 1;
        // Save the interrupted context into the current process's record.
        if let Some(cp) = self.curr_proc {
            match self.processes.get(cp) {
                Some(cur) => {
                    let mut rec = *cur;
                    rec.regs = *regs;
                    rec.syscalling = ring < 3;
                    let ghost mpre = self.procs();
                    let _ = self.processes.set_value(cp, rec);
                    proof {
                        self.processes.lemma_well_formed_props();
                        assert(self.procs().dom() =~= mpre.dom());
                        lemma_prio_sum_agree(mpre.dom(), mpre, self.procs());
                    }
                },
                None => {},
            }
        }
        proof {
            assert(self.procs() == spec_save(m0, c0, *regs, ring));
            assert(self.well_formed());
        }
        let ghost m1 = self.procs();
        let sel = self.get_next_process();
        match sel {
            None => TickOutcome::Idle,
            Some(p) => {
                self.curr_proc = Some(p);
                let rec = *self.processes.get(p).unwrap();
                proof {
                    if !(c0 == Some(p) && m0.dom().len() == 1) {
                        assert(rec.quantum_count == m1[p].quantum_count);
                    }
                }
                let mut rec2 = rec;
                rec2.quantum_count = rec.quantum_count + 1;
                let ghost mpre = self.procs();
                let _ = self.processes.set_value(p, rec2);
                proof {
                    self.processes.lemma_well_formed_props();
                    assert(self.procs().dom() =~= mpre.dom());
                    lemma_prio_sum_agree(mpre.dom(), mpre, self.procs());
                }
                let ghost slots0 = self.slot_pids();
                let _ = self.ctx_switch_data.remove(0);
                self.ctx_switch_data.insert(0, Some(ContextSwitchData { pid: p }));
                proof {
                    assert(self.slot_pids() =~= slots0.update(0, Some(p)));
                }
                TickOutcome::Switch(ContextSwitch {
                    pid: p,
                    regs: rec2.regs,
                    syscalling: rec2.syscalling,
                    kernel_stack: rec2.kernel_stack,
                    mem_space: rec2.mem_space,
                    signal_pending: rec2.pending_signal,
                })
            },
        }
    }

    /// Changes the priority of a registered process: the record is updated
    /// and the statistics follow via `update_priority`. Returns whether
    /// the process was found.
    pub fn set_priority(&mut self, pid: Pid, new_priority: usize) -> (r: bool)
        requires
            old(self).well_formed(),
            old(self).prio_sum_val() + new_priority <= usize::MAX,
        ensures
            final(self).well_formed(),
            r == old(self).procs().dom().contains(pid),
            final(self).current() == old(self).current(),
            final(self).ticks() == old(self).ticks(),
            final(self).slot_pids() == old(self).slot_pids(),
            r ==> final(self).procs() == old(self).procs().insert(
                pid,
                (Process { priority: new_priority, ..old(self).procs()[pid] }),
            ) && final(self).prio_sum_val() == old(self).prio_sum_val() - old(
                self,
            ).procs()[pid].priority + new_priority && final(self).prio_max_val() == (
            if new_priority >= old(self).prio_max_val() {
                new_priority
            } else {
                old(self).prio_max_val()
            }),
            !r ==> final(self).procs() == old(self).procs() && final(self).prio_sum_val() == old(
                self,
            ).prio_sum_val() && final(self).prio_max_val() == old(self).prio_max_val(),
    {
        let ghost m0 = self.procs();
        let record = match self.processes.get(pid) {
            Some(p) => *p,
            None => {
                return false;
            },
        };
        let old_priority = record.priority;
        let mut updated = record;
        updated.priority = new_priority;
        let _ = self.processes.set_value(pid, updated);
        proof {
            old(self).processes.lemma_well_formed_props();
            self.processes.lemma_well_formed_props();
            lemma_prio_sum_member(m0.dom(), m0);
            lemma_prio_sum_pick(m0.dom(), m0, pid);
            assert(self.procs().dom() =~= m0.dom());
            lemma_prio_sum_pick(self.procs().dom(), self.procs(), pid);
            lemma_prio_sum_agree(m0.dom().remove(pid), m0, self.procs());
        }
        self.update_priority(old_priority, new_priority);
        true
    }
}

} // verus!
