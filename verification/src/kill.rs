//! Sending signals: `kill`, `tkill`, `tgkill`, a child telling its parent, and
//! the interval timer that raises `SIGALRM`.
//!
//! A send decides, delivery acts. A sender says who is sent what, and whether
//! a posted signal is discarded, pending, or fatal now; everything else
//! happens in the target's own task on its way back to user mode.

use vstd::prelude::*;

use crate::abi::{low_u32, signed_32, spec_int, spec_low_u32, Arch};
use crate::attributes::NSIG;
use crate::bytes::{le_bytes, le_encode};
use crate::errno::Errno;
use crate::family::{CLD_CONTINUED, CLD_STOPPED, SIGCHLD, SIGCONT};
use crate::nr::Syscall;
use crate::process::{find, find_thread, spec_find, spec_find_thread, Process};
use crate::time::{
    get_signed, lemma_can_read_split, saturated, saturating_mul_add, signed_field,
    NANOS_PER_SECOND,
};
use crate::uaccess::{AddressSpace, Memory};

verus! {

/// The signal of an alarm.
pub const SIGALRM: u32 = 14;

/// The process that is the first of all.
pub const INIT_PID: u32 = 1;

/// The timer that counts wall-clock time.
pub const ITIMER_REAL: u32 = 0;

/// The timer that counts user time. Not kept.
pub const ITIMER_VIRTUAL: u32 = 1;

/// The timer that counts user and system time. Not kept.
pub const ITIMER_PROF: u32 = 2;

/// Nanoseconds in a microsecond.
pub const NANOS_PER_MICRO: u64 = 1_000;

// ---------------------------------------------------------------------------
// Sending
// ---------------------------------------------------------------------------

/// Who a signal is from.
#[derive(Clone, Copy, Debug, PartialEq, Eq, Structural)]
pub enum Origin {
    /// The kernel.
    Kernel,
    /// A process, through `kill`.
    User { pid: u32 },
    /// A process, through `tkill` or `tgkill`.
    Thread { pid: u32 },
    /// A child that changed state.
    Child { code: i32, pid: u32, status: i32 },
}

/// What became of a signal that was posted.
#[derive(Clone, Copy, Debug, PartialEq, Eq, Structural)]
pub enum Posted {
    /// The target ignores it.
    Discarded,
    /// It ends the target.
    Fatal,
    /// It waits to be delivered.
    Pending,
}

/// What a send does first.
#[derive(Clone, Copy, Debug, PartialEq, Eq, Structural)]
pub enum Sending {
    /// Nothing at all.
    Nothing,
    /// Post the signal, once a stopped target has been continued if asked.
    Post { leave_stop: bool },
}

/// Send a signal: zero and numbers past 64 send nothing, and neither does
/// anything sent to a process that has ended.
///
/// `SIGCONT` continues a stopped process as it is sent, whatever the process
/// does with the signal itself.
pub fn send(signal: u32, terminated: bool) -> (sending: Sending)
    ensures
        sending == if signal == 0 || signal > NSIG || terminated {
            Sending::Nothing
        } else {
            Sending::Post { leave_stop: signal == SIGCONT }
        },
{
    if signal == 0 || signal as u64 > NSIG || terminated {
        return Sending::Nothing;
    }
    Sending::Post { leave_stop: signal == SIGCONT }
}

/// What a sender owes the target of a posted signal.
#[derive(Clone, Copy, Debug, PartialEq, Eq, Structural)]
pub enum Owed {
    /// Nothing.
    Nothing,
    /// To end it, with this status.
    Kill(i32),
    /// To see that it takes its way back to user mode soon.
    Notify,
}

/// What a sender owes the target of a posted signal: a fatal one ends it with
/// 128 and the signal, a pending one is told of.
pub fn after_post(signal: u32, posted: Posted) -> (owed: Owed)
    requires
        1 <= signal <= NSIG,
    ensures
        owed == match posted {
            Posted::Discarded => Owed::Nothing,
            Posted::Fatal => Owed::Kill((128 + signal) as i32),
            Posted::Pending => Owed::Notify,
        },
{
    match posted {
        Posted::Discarded => Owed::Nothing,
        Posted::Fatal => Owed::Kill((128 + signal) as i32),
        Posted::Pending => Owed::Notify,
    }
}

/// Send a signal to the running task's own process, from the kernel; to
/// nobody, from a task that is no program's.
pub fn send_to_current(signal: u32, current: Option<bool>) -> (sending: Option<(Sending, Origin)>)
    ensures
        match current {
            None => sending is None,
            Some(terminated) => sending == Some(
                (
                    if signal == 0 || signal > NSIG || terminated {
                        Sending::Nothing
                    } else {
                        Sending::Post { leave_stop: signal == SIGCONT }
                    },
                    Origin::Kernel,
                ),
            ),
        },
{
    match current {
        None => None,
        Some(terminated) => Some((send(signal, terminated), Origin::Kernel)),
    }
}

/// Whether `kill` with `pid` reaches a live process when called by `process`:
/// with zero everyone in the caller's group, with -1 everyone but the caller
/// and the first process, and below that everyone in group `-pid`.
pub open spec fn reached(process: Process, other: Process, pid: int) -> bool {
    if pid == -1 {
        other.pid != process.pid && other.pid != INIT_PID
    } else if pid == 0 {
        other.pgid == process.pgid
    } else {
        other.pgid == -pid
    }
}

/// The first `n` live processes that `kill` with a `pid` of zero or below
/// reaches.
pub open spec fn reached_of(process: Process, live: Seq<Process>, pid: int, n: int) -> Seq<usize>
    decreases n,
{
    if n <= 0 {
        Seq::empty()
    } else if reached(process, live[n - 1], pid) {
        reached_of(process, live, pid, n - 1).push((n - 1) as usize)
    } else {
        reached_of(process, live, pid, n - 1)
    }
}

/// Whom `kill` reaches, by their places among the live.
pub open spec fn spec_targets(process: Process, live: Seq<Process>, pid: int) -> Seq<usize> {
    if pid > 0 {
        match spec_find(live, pid, 0) {
            Some(i) => seq![i as usize],
            None => Seq::empty(),
        }
    } else {
        reached_of(process, live, pid, live.len() as int)
    }
}

/// Whom `kill` reaches.
fn targets(process: &Process, live: &Vec<Process>, pid: i32) -> (list: Vec<usize>)
    ensures
        list@ == spec_targets(*process, live@, pid as int),
{
    let mut list: Vec<usize> = Vec::new();
    if pid > 0 {
        if let Some(i) = find(live, pid as u32) {
            list.push(i);
            assert(list@ =~= seq![i]);
        } else {
            assert(list@ =~= Seq::<usize>::empty());
        }
        return list;
    }
    let group: i64 = if pid == 0 {
        process.pgid as i64
    } else {
        -(pid as i64)
    };
    let mut i: usize = 0;
    while i < live.len()
        invariant
            i <= live@.len(),
            pid <= 0,
            group == if pid == 0 {
                process.pgid as int
            } else {
                -pid
            },
            list@ == reached_of(*process, live@, pid as int, i as int),
        decreases live@.len() - i,
    {
        let wanted = if pid == -1 {
            live[i].pid != process.pid && live[i].pid != INIT_PID
        } else {
            live[i].pgid as i64 == group
        };
        if wanted {
            list.push(i);
        }
        i = i + 1;
    }
    list
}

/// `kill`: whom to send the signal, and as what: each from the caller.
///
/// `pid` above zero is that process; zero, every process in the caller's
/// group; -1, every process but the caller and the first; below -1, every
/// process in group `-pid`. Signal zero sends nothing and only asks whether a
/// target exists. `EINVAL` for a signal past 64; `ESRCH` when no process
/// matches.
pub fn sys_kill(process: &Process, live: &Vec<Process>, pid: i32, signal: u32) -> (sent: Result<
    (Vec<usize>, Origin),
    Errno,
>)
    ensures
        match sent {
            Ok((list, origin)) => {
                &&& signal <= NSIG
                &&& list@.len() > 0
                &&& list@ == spec_targets(*process, live@, pid as int)
                &&& origin == (Origin::User { pid: process.pid })
            },
            Err(e) => if signal > NSIG {
                e == Errno::EINVAL
            } else {
                e == Errno::ESRCH && spec_targets(*process, live@, pid as int).len() == 0
            },
        },
{
    if signal as u64 > NSIG {
        return Err(Errno::EINVAL);
    }
    let list = targets(process, live, pid);
    if list.len() == 0 {
        return Err(Errno::ESRCH);
    }
    Ok((list, Origin::User { pid: process.pid }))
}

/// Every target of a `kill` of zero or below is one the call reaches, and
/// every process it reaches is a target.
pub proof fn law_kill_reaches_exactly_its_targets(
    process: Process,
    live: Seq<Process>,
    pid: int,
    i: int,
)
    requires
        pid <= 0,
        0 <= i < live.len(),
        live.len() <= usize::MAX,
    ensures
        spec_targets(process, live, pid).contains(i as usize) <==> reached(process, live[i], pid),
{
    lemma_reached(process, live, pid, live.len() as int, i);
}

proof fn lemma_reached(process: Process, live: Seq<Process>, pid: int, n: int, i: int)
    requires
        0 <= i < live.len(),
        0 <= n <= live.len(),
        live.len() <= usize::MAX,
    ensures
        reached_of(process, live, pid, n).contains(i as usize) <==> i < n && reached(
            process,
            live[i],
            pid,
        ),
    decreases n,
{
    if n > 0 {
        lemma_reached(process, live, pid, n - 1, i);
        let before = reached_of(process, live, pid, n - 1);
        let all = reached_of(process, live, pid, n);
        if reached(process, live[n - 1], pid) {
            assert(all == before.push((n - 1) as usize));
            assert(all[all.len() - 1] == (n - 1) as usize);
            if before.contains(i as usize) {
                let k = choose|k: int| 0 <= k < before.len() && before[k] == i as usize;
                assert(all[k] == i as usize);
            }
            if all.contains(i as usize) {
                let k = choose|k: int| 0 <= k < all.len() && all[k] == i as usize;
                if k < before.len() {
                    assert(before[k] == i as usize);
                }
            }
        }
    }
}

/// `tkill`: whom to send the signal, and as what: from a thread of the caller.
/// A thread's id finds its process, which the signal goes to as a whole.
///
/// `EINVAL` for a thread id below one or a signal past 64; `ESRCH` for a
/// thread nobody has.
pub fn sys_tkill(process: &Process, live: &Vec<Process>, tid: i32, signal: u32) -> (sent: Result<
    (usize, Origin),
    Errno,
>)
    ensures
        sent == from_thread(*process, spec_tkill(live@, tid as int, signal)),
{
    if tid <= 0 || signal as u64 > NSIG {
        return Err(Errno::EINVAL);
    }
    match find_thread(live, tid as u32) {
        Some(i) => Ok((i, Origin::Thread { pid: process.pid })),
        None => Err(Errno::ESRCH),
    }
}

/// A target, signalled from a thread of the caller.
pub open spec fn from_thread(process: Process, target: Result<usize, Errno>) -> Result<
    (usize, Origin),
    Errno,
> {
    match target {
        Ok(i) => Ok((i, Origin::Thread { pid: process.pid })),
        Err(e) => Err(e),
    }
}

/// Whom `tkill` reaches.
pub open spec fn spec_tkill(live: Seq<Process>, tid: int, signal: u32) -> Result<usize, Errno> {
    if tid <= 0 || signal > NSIG {
        Err(Errno::EINVAL)
    } else {
        match spec_find_thread(live, tid, 0) {
            Some(i) => Ok(i as usize),
            None => Err(Errno::ESRCH),
        }
    }
}

/// Every thread of every live process can be signalled by its own id, with its
/// process's number or without; and an id nobody has is `ESRCH`.
pub proof fn law_a_thread_is_found_by_its_id(live: Seq<Process>, tid: int, signal: u32, i: int)
    requires
        0 < tid,
        signal <= NSIG,
        live.len() <= usize::MAX,
        0 <= i < live.len(),
        live[i].runs(tid),
        forall|j: int| 0 <= j < live.len() && (#[trigger] live[j]).runs(tid) ==> j == i,
    ensures
        spec_tkill(live, tid, signal) == Ok::<usize, Errno>(i as usize),
        forall|tgid: int|
            0 < tgid ==> #[trigger] spec_tgkill(live, tgid, tid, signal) == (if tgid
                == live[i].pid {
                Ok::<usize, Errno>(i as usize)
            } else {
                Err(Errno::ESRCH)
            }),
{
    lemma_thread_found(live, tid, 0, i);
}

proof fn lemma_thread_found(live: Seq<Process>, tid: int, from: int, i: int)
    requires
        0 <= from <= i < live.len(),
        live[i].runs(tid),
        forall|j: int| 0 <= j < live.len() && (#[trigger] live[j]).runs(tid) ==> j == i,
    ensures
        spec_find_thread(live, tid, from) == Some(i),
    decreases i - from,
{
    if from < i {
        lemma_thread_found(live, tid, from + 1, i);
    }
}

/// Whom `tgkill` reaches.
pub open spec fn spec_tgkill(live: Seq<Process>, tgid: int, tid: int, signal: u32) -> Result<
    usize,
    Errno,
> {
    if tgid <= 0 {
        Err(Errno::EINVAL)
    } else {
        match spec_tkill(live, tid, signal) {
            Err(e) => Err(e),
            Ok(i) => if live[i as int].pid != tgid {
                Err(Errno::ESRCH)
            } else {
                Ok(i)
            },
        }
    }
}

/// `tgkill`: as [`sys_tkill`], with the thread required to be one of `tgid`'s;
/// `ESRCH` for one that is not.
pub fn sys_tgkill(
    process: &Process,
    live: &Vec<Process>,
    tgid: i32,
    tid: i32,
    signal: u32,
) -> (sent: Result<(usize, Origin), Errno>)
    ensures
        sent == from_thread(*process, spec_tgkill(live@, tgid as int, tid as int, signal)),
{
    if tgid <= 0 || tid <= 0 || signal as u64 > NSIG {
        return Err(Errno::EINVAL);
    }
    match find_thread(live, tid as u32) {
        Some(i) => if live[i].pid != tgid as u32 {
            Err(Errno::ESRCH)
        } else {
            Ok((i, Origin::Thread { pid: process.pid }))
        },
        None => Err(Errno::ESRCH),
    }
}

/// What a child that changed state does to its parent.
#[derive(Clone, Copy, Debug, PartialEq, Eq)]
pub enum Told {
    /// Nothing: it has none.
    Nobody,
    /// Whatever waits for a child is woken, and this signal is sent.
    Woken { send: Option<(u32, Origin)> },
}

/// Tell a child's parent that the child changed state.
///
/// `SIGCHLD` for a stop or a continue, unless the parent asked not to be told
/// of those; for an end, the signal the child was created with.
pub fn tell_parent(
    ignores_child_stops: Option<bool>,
    child: u32,
    signal: u32,
    code: i32,
    status: i32,
) -> (told: Told)
    ensures
        told == match ignores_child_stops {
            None => Told::Nobody,
            Some(ignores) => {
                let stop = code == CLD_STOPPED || code == CLD_CONTINUED;
                let origin = Origin::Child { code, pid: child, status };
                Told::Woken {
                    send: if stop && ignores {
                        None
                    } else if stop {
                        Some((SIGCHLD, origin))
                    } else {
                        Some((signal, origin))
                    },
                }
            },
        },
{
    match ignores_child_stops {
        None => Told::Nobody,
        Some(ignores) => {
            let stop = code == CLD_STOPPED || code == CLD_CONTINUED;
            if stop && ignores {
                return Told::Woken { send: None };
            }
            let sent: u32 = if stop {
                SIGCHLD
            } else {
                signal
            };
            Told::Woken { send: Some((sent, Origin::Child { code, pid: child, status })) }
        },
    }
}

// ---------------------------------------------------------------------------
// The alarm clock
// ---------------------------------------------------------------------------

/// A process's interval timer.
#[derive(Clone, Copy, Debug, PartialEq, Eq, Structural)]
pub struct Alarm {
    /// When it is due; zero for one that is not armed.
    pub deadline: u64,
    /// How long after that it is due again; zero for never.
    pub interval: u64,
}

/// Whether the clock's thread runs, and whether it has to look again.
#[derive(Clone, Copy, Debug, PartialEq, Eq, Structural)]
pub struct Clock {
    /// Whether the thread runs, or is on its way to.
    pub running: bool,
    /// Whether a deadline changed since it last looked.
    pub changed: bool,
}

impl Clock {
    /// A deadline changed. Answers whether the thread has to be started.
    pub fn alarms_changed(&mut self) -> (start: bool)
        ensures
            start == !old(self).running,
            *final(self) == (Clock { running: true, changed: true }),
    {
        let start = !self.running;
        self.running = true;
        self.changed = true;
        start
    }

    /// The thread could not be started: the next change tries again.
    pub fn not_started(&mut self)
        ensures
            *final(self) == (Clock { running: false, ..*old(self) }),
    {
        self.running = false;
    }

    /// What [`Clock::rest`] leaves, and what the thread does next.
    pub open spec fn spec_rest(self, next: u64) -> (Clock, Rest) {
        if next != u64::MAX {
            (self, Rest::Until(next))
        } else if self.changed {
            (Clock { changed: false, ..self }, Rest::LookAgain)
        } else {
            (Clock { running: false, ..self }, Rest::End)
        }
    }

    /// What the thread does once it has looked at every alarm and the earliest
    /// is `next`: rest until then; or, with none, end, unless a deadline
    /// changed meanwhile.
    pub fn rest(&mut self, next: u64) -> (rest: Rest)
        ensures
            (*final(self), rest) == old(self).spec_rest(next),
    {
        if next != u64::MAX {
            return Rest::Until(next);
        }
        if self.changed {
            self.changed = false;
            return Rest::LookAgain;
        }
        self.running = false;
        Rest::End
    }

    /// Whether a deadline changed while the thread rested, which ends its rest
    /// and is noted once.
    pub fn roused(&mut self) -> (yes: bool)
        ensures
            yes == old(self).changed,
            *final(self) == (Clock { changed: false, ..*old(self) }),
    {
        let yes = self.changed;
        self.changed = false;
        yes
    }

    /// One turn of the thread, given every alarm as it is once those that were
    /// due have been raised.
    pub fn run_alarm_clock(&mut self, alarms: &Vec<Alarm>) -> (rest: Rest)
        ensures
            (*final(self), rest) == old(self).spec_rest(earliest(alarms@, alarms@.len() as int)),
    {
        let next: u64 = next_alarm(alarms);
        self.rest(next)
    }
}

/// The thread never ends on a deadline it has not looked at, nor with one
/// armed.
pub proof fn law_the_clock_ends_only_when_nothing_is_armed(clock: Clock, alarms: Seq<Alarm>)
    ensures
        clock.spec_rest(earliest(alarms, alarms.len() as int)).1 == Rest::End ==> !clock.changed
            && forall|i: int|
            0 <= i < alarms.len() && (#[trigger] alarms[i]).deadline < u64::MAX
                ==> alarms[i].deadline == 0,
{
    assert forall|i: int|
        0 <= i < alarms.len() && (#[trigger] alarms[i]).deadline < u64::MAX && earliest(
            alarms,
            alarms.len() as int,
        ) == u64::MAX implies alarms[i].deadline == 0 by {
        if alarms[i].deadline != 0 {
            lemma_earliest(alarms, alarms.len() as int, i);
        }
    }
}

/// What the clock's thread does next.
#[derive(Clone, Copy, Debug, PartialEq, Eq, Structural)]
pub enum Rest {
    /// Sleep until then, or until a deadline changes.
    Until(u64),
    /// Look at every alarm again.
    LookAgain,
    /// End.
    End,
}

/// The earliest deadline of the first `n` alarms, or the latest there is when
/// none is armed.
pub open spec fn earliest(alarms: Seq<Alarm>, n: int) -> u64
    decreases n,
{
    if n <= 0 {
        u64::MAX
    } else {
        let rest = earliest(alarms, n - 1);
        let deadline = alarms[n - 1].deadline;
        if deadline != 0 && deadline < rest {
            deadline
        } else {
            rest
        }
    }
}

/// When the clock's thread has to look next: the earliest deadline among the
/// alarms as they are once every one that was due has been raised.
pub fn next_alarm(alarms: &Vec<Alarm>) -> (next: u64)
    ensures
        next == earliest(alarms@, alarms@.len() as int),
{
    let mut next: u64 = u64::MAX;
    let mut i: usize = 0;
    while i < alarms.len()
        invariant
            i <= alarms@.len(),
            next == earliest(alarms@, i as int),
        decreases alarms@.len() - i,
    {
        let deadline: u64 = alarms[i].deadline;
        if deadline != 0 && deadline < next {
            next = deadline;
        }
        i = i + 1;
    }
    next
}

/// The clock's thread sleeps past no armed alarm.
pub proof fn law_no_alarm_is_slept_past(alarms: Seq<Alarm>, i: int)
    requires
        0 <= i < alarms.len(),
        alarms[i].deadline != 0,
    ensures
        earliest(alarms, alarms.len() as int) <= alarms[i].deadline,
{
    lemma_earliest(alarms, alarms.len() as int, i);
}

proof fn lemma_earliest(alarms: Seq<Alarm>, n: int, i: int)
    requires
        0 <= i < n <= alarms.len(),
        alarms[i].deadline != 0,
    ensures
        earliest(alarms, n) <= alarms[i].deadline,
    decreases n,
{
    if i < n - 1 {
        lemma_earliest(alarms, n - 1, i);
    }
}

/// An alarm's interval and the time left on it at `now`. One that is due but
/// not yet raised has a microsecond left, so that it does not read as
/// disarmed.
pub open spec fn spec_remaining(alarm: Alarm, now: u64) -> (u64, u64) {
    if alarm.deadline == 0 {
        (alarm.interval, 0)
    } else if alarm.deadline - now < NANOS_PER_MICRO {
        (alarm.interval, NANOS_PER_MICRO)
    } else {
        (alarm.interval, (alarm.deadline - now) as u64)
    }
}

/// An alarm's interval and the time left on it at `now`, in nanoseconds.
pub fn remaining(alarm: Alarm, now: u64) -> (left: (u64, u64))
    ensures
        left == spec_remaining(alarm, now),
{
    if alarm.deadline == 0 {
        return (alarm.interval, 0);
    }
    let left: u64 = if alarm.deadline > now {
        alarm.deadline - now
    } else {
        0
    };
    if left < NANOS_PER_MICRO {
        (alarm.interval, NANOS_PER_MICRO)
    } else {
        (alarm.interval, left)
    }
}

/// An armed timer never reads as disarmed, and a disarmed one always does.
pub proof fn law_armed_reads_as_armed(alarm: Alarm, now: u64)
    ensures
        spec_remaining(alarm, now).1 == 0 <==> alarm.deadline == 0,
{
}

/// A time left, in whole seconds: to the nearer second, but never zero for a
/// time that is not.
pub open spec fn rounded(left: int) -> int {
    if 0 < left < NANOS_PER_SECOND {
        1
    } else {
        (left + NANOS_PER_SECOND / 2) / NANOS_PER_SECOND as int
    }
}

/// `alarm`: arm the timer for whole seconds, once, and answer the seconds that
/// were left on the one it replaced, to the nearer second, and never zero for
/// a timer that was armed.
pub fn sys_alarm(alarm: &mut Alarm, seconds: u32, now: u64) -> (answer: usize)
    ensures
        *final(alarm) == (Alarm {
            deadline: if seconds == 0 {
                0
            } else {
                saturated(now + seconds * NANOS_PER_SECOND) as u64
            },
            interval: 0,
        }),
        answer == if rounded(spec_remaining(*old(alarm), now).1 as int) > usize::MAX {
            usize::MAX as int
        } else {
            rounded(spec_remaining(*old(alarm), now).1 as int)
        },
{
    let deadline: u64 = if seconds == 0 {
        0
    } else {
        saturating_mul_add(seconds as u64, NANOS_PER_SECOND, now)
    };
    let previous = *alarm;
    *alarm = Alarm { deadline, interval: 0 };
    let (_, left) = remaining(previous, now);
    let whole: u64 = left / NANOS_PER_SECOND;
    let rest: u64 = left % NANOS_PER_SECOND;
    let seconds_left: u64 = if (whole == 0 && rest != 0) || rest >= NANOS_PER_SECOND / 2 {
        whole + 1
    } else {
        whole
    };
    if seconds_left as u128 > usize::MAX as u128 {
        usize::MAX
    } else {
        seconds_left as usize
    }
}

/// `alarm` answers zero exactly when no timer was armed.
pub proof fn law_alarm_answers_zero_only_when_disarmed(alarm: Alarm, now: u64)
    ensures
        rounded(spec_remaining(alarm, now).1 as int) == 0 <==> alarm.deadline == 0,
{
}

/// A `timeval`'s seconds and microseconds, in nanoseconds; `EINVAL` for a
/// negative time, or a microsecond count of a second or more.
pub open spec fn spec_timeval(seconds: int, micros: int) -> Result<u64, Errno> {
    if seconds < 0 || micros < 0 || micros >= 1_000_000 {
        Err(Errno::EINVAL)
    } else {
        Ok(saturated(seconds * NANOS_PER_SECOND + micros * NANOS_PER_MICRO) as u64)
    }
}

/// A `timeval`'s seconds and microseconds, in nanoseconds.
fn timeval_nanos(seconds: i64, micros: i64) -> (nanos: Result<u64, Errno>)
    ensures
        nanos == spec_timeval(seconds as int, micros as int),
{
    if seconds < 0 || micros < 0 || micros >= 1_000_000 {
        return Err(Errno::EINVAL);
    }
    Ok(saturating_mul_add(seconds as u64, NANOS_PER_SECOND, micros as u64 * NANOS_PER_MICRO))
}

/// What a `struct itimerval` at `at` says: its interval and its value, each a
/// `timeval` of native words; `EFAULT` if it cannot be read.
pub open spec fn spec_itimerval(m: Memory, at: int, word: nat) -> Result<(u64, u64), Errno> {
    if !m.can_read(at, 4 * word as int) {
        Err(Errno::EFAULT)
    } else {
        match spec_timeval(signed_field(m, at, word), signed_field(m, at + word, word)) {
            Err(e) => Err(e),
            Ok(interval) => match spec_timeval(
                signed_field(m, at + 2 * word, word),
                signed_field(m, at + 3 * word, word),
            ) {
                Err(e) => Err(e),
                Ok(value) => Ok((interval, value)),
            },
        }
    }
}

/// Read a `struct itimerval`: interval first.
fn read_itimerval(space: &AddressSpace, at: u64, word: usize) -> (pair: Result<(u64, u64), Errno>)
    requires
        space.wf(),
        word == 4 || word == 8,
    ensures
        pair == spec_itimerval(space@, at as int, word as nat),
{
    proof {
        lemma_can_read_split(space@, at as int, word as int, 3 * word as int);
        lemma_can_read_split(space@, at + word, word as int, 2 * word as int);
        lemma_can_read_split(space@, at + 2 * word, word as int, word as int);
    }
    let first: i64 = get_signed(space, at, word)?;
    if at > u64::MAX - 3 * word as u64 {
        proof {
            space.lemma_unmapped_above(at + 4 * word - 1);
            assert(!space@.bytes.dom().contains(at + 4 * word - 1));
        }
        return Err(Errno::EFAULT);
    }
    let second: i64 = get_signed(space, at + word as u64, word)?;
    let third: i64 = get_signed(space, at + 2 * word as u64, word)?;
    let fourth: i64 = get_signed(space, at + 3 * word as u64, word)?;
    let interval: u64 = timeval_nanos(first, second)?;
    let value: u64 = timeval_nanos(third, fourth)?;
    Ok((interval, value))
}

/// A `struct itimerval` of native words.
pub open spec fn itimerval_bytes(interval: u64, value: u64, word: nat) -> Seq<u8> {
    le_bytes((interval / NANOS_PER_SECOND) as nat, word) + le_bytes(
        (interval % NANOS_PER_SECOND / NANOS_PER_MICRO) as nat,
        word,
    ) + le_bytes((value / NANOS_PER_SECOND) as nat, word) + le_bytes(
        (value % NANOS_PER_SECOND / NANOS_PER_MICRO) as nat,
        word,
    )
}

/// What writing a `struct itimerval` comes to.
pub open spec fn told_itimerval(m: Memory, at: u64, interval: u64, value: u64, word: nat) -> (
    Memory,
    Result<usize, Errno>,
) {
    match m.put(at as int, itimerval_bytes(interval, value, word)) {
        Ok(after) => (after, Ok(0)),
        Err(e) => (m, Err(e)),
    }
}

/// [`told_itimerval`], where a null pointer asks for nothing.
pub open spec fn told_itimerval_if(m: Memory, at: u64, interval: u64, value: u64, word: nat) -> (
    Memory,
    Result<usize, Errno>,
) {
    if at == 0 {
        (m, Ok(0))
    } else {
        told_itimerval(m, at, interval, value, word)
    }
}

/// Write a `struct itimerval` from nanoseconds.
fn write_itimerval(space: &mut AddressSpace, at: u64, interval: u64, value: u64, word: usize) -> (
    result: Result<usize, Errno>)
    requires
        old(space).wf(),
        word == 4 || word == 8,
    ensures
        final(space).wf(),
        final(space).same_layout(*old(space)),
        (final(space)@, result) == told_itimerval(
            old(space)@,
            at,
            interval,
            value,
            word as nat,
        ),
{
    let mut bytes = le_encode(interval / NANOS_PER_SECOND, word);
    let mut second = le_encode(interval % NANOS_PER_SECOND / NANOS_PER_MICRO, word);
    let mut third = le_encode(value / NANOS_PER_SECOND, word);
    let mut fourth = le_encode(value % NANOS_PER_SECOND / NANOS_PER_MICRO, word);
    bytes.append(&mut second);
    bytes.append(&mut third);
    bytes.append(&mut fourth);
    space.copy_to_user(at, bytes.as_slice())?;
    Ok(0)
}

/// Write a `struct itimerval`, when there is somewhere to write it; zero
/// either way.
pub fn write_itimerval_if(
    space: &mut AddressSpace,
    at: u64,
    interval: u64,
    value: u64,
    arch: Arch,
) -> (result: Result<usize, Errno>)
    requires
        old(space).wf(),
    ensures
        final(space).wf(),
        final(space).same_layout(*old(space)),
        (final(space)@, result) == told_itimerval_if(
            old(space)@,
            at,
            interval,
            value,
            arch.spec_word(),
        ),
{
    if at != 0 {
        return write_itimerval(space, at, interval, value, arch.word());
    }
    Ok(0)
}

/// What `setitimer` leaves: memory, the alarm, and its answer.
///
/// The new value is read before anything changes and the old one written
/// after, so a bad pointer for the old one is `EFAULT` with the timer already
/// set.
pub open spec fn spec_setitimer(
    m: Memory,
    alarm: Alarm,
    which: u32,
    new: u64,
    old_at: u64,
    now: u64,
    word: nat,
) -> (Memory, Alarm, Result<usize, Errno>) {
    let asked = if new == 0 {
        Ok((0u64, 0u64))
    } else {
        spec_itimerval(m, new as int, word)
    };
    match asked {
        Err(e) => (m, alarm, Err(e)),
        Ok((interval, value)) => if which == ITIMER_REAL {
            let deadline = if value == 0 {
                0
            } else {
                saturated(now + value) as u64
            };
            let (before, left) = spec_remaining(alarm, now);
            let (after, answer) = told_itimerval_if(m, old_at, before, left, word);
            (after, Alarm { deadline, interval }, answer)
        } else if (which == ITIMER_VIRTUAL || which == ITIMER_PROF) && value == 0 {
            let (after, answer) = told_itimerval_if(m, old_at, 0, 0, word);
            (after, alarm, answer)
        } else {
            (m, alarm, Err(Errno::EINVAL))
        },
    }
}

/// `setitimer`. A null new value disarms.
///
/// `EINVAL` for an unknown timer, a microsecond count of a second or more, a
/// negative time, or an attempt to arm a timer that is not kept; `EFAULT` for
/// a bad pointer.
pub fn sys_setitimer(
    space: &mut AddressSpace,
    alarm: &mut Alarm,
    which: u32,
    new: u64,
    old_at: u64,
    now: u64,
    arch: Arch,
) -> (result: Result<usize, Errno>)
    requires
        old(space).wf(),
    ensures
        final(space).wf(),
        final(space).same_layout(*old(space)),
        (final(space)@, *final(alarm), result) == spec_setitimer(
            old(space)@,
            *old(alarm),
            which,
            new,
            old_at,
            now,
            arch.spec_word(),
        ),
{
    let (interval, value): (u64, u64) = if new == 0 {
        (0, 0)
    } else {
        read_itimerval(space, new, arch.word())?
    };
    if which != ITIMER_REAL {
        if (which == ITIMER_VIRTUAL || which == ITIMER_PROF) && value == 0 {
            return write_itimerval_if(space, old_at, 0, 0, arch);
        }
        return Err(Errno::EINVAL);
    }
    let deadline: u64 = if value == 0 {
        0
    } else {
        match now.checked_add(value) {
            Some(deadline) => deadline,
            None => u64::MAX,
        }
    };
    let previous = *alarm;
    *alarm = Alarm { deadline, interval };
    let (before, left) = remaining(previous, now);
    write_itimerval_if(space, old_at, before, left, arch)
}

/// What `getitimer` does to memory, and its answer.
pub open spec fn spec_getitimer(
    m: Memory,
    alarm: Alarm,
    which: u32,
    at: u64,
    now: u64,
    word: nat,
) -> (Memory, Result<usize, Errno>) {
    if which == ITIMER_REAL {
        let (interval, left) = spec_remaining(alarm, now);
        told_itimerval(m, at, interval, left, word)
    } else if which == ITIMER_VIRTUAL || which == ITIMER_PROF {
        told_itimerval(m, at, 0, 0, word)
    } else {
        (m, Err(Errno::EINVAL))
    }
}

/// `getitimer`.
///
/// `EINVAL` for an unknown timer; `EFAULT` for a bad pointer.
pub fn sys_getitimer(
    space: &mut AddressSpace,
    alarm: Alarm,
    which: u32,
    at: u64,
    now: u64,
    arch: Arch,
) -> (result: Result<usize, Errno>)
    requires
        old(space).wf(),
    ensures
        final(space).wf(),
        final(space).same_layout(*old(space)),
        (final(space)@, result) == spec_getitimer(
            old(space)@,
            alarm,
            which,
            at,
            now,
            arch.spec_word(),
        ),
{
    let (interval, value): (u64, u64) = if which == ITIMER_REAL {
        remaining(alarm, now)
    } else if which == ITIMER_VIRTUAL || which == ITIMER_PROF {
        (0, 0)
    } else {
        return Err(Errno::EINVAL);
    };
    write_itimerval(space, at, interval, value, arch.word())
}

/// A timer that was just set has its whole time left, and reads so.
pub proof fn law_a_timer_just_set_has_its_time_left(
    m: Memory,
    alarm: Alarm,
    new: u64,
    now: u64,
    word: nat,
)
    requires
        new != 0,
        spec_itimerval(m, new as int, word) is Ok,
        spec_itimerval(m, new as int, word)->Ok_0.1 >= NANOS_PER_MICRO,
        now + spec_itimerval(m, new as int, word)->Ok_0.1 <= u64::MAX,
    ensures
        ({
            let (interval, value) = spec_itimerval(m, new as int, word)->Ok_0;
            let (_, after, answer) = spec_setitimer(m, alarm, ITIMER_REAL, new, 0, now, word);
            &&& answer == Ok::<usize, Errno>(0)
            &&& spec_remaining(after, now) == (interval, value)
        }),
{
}

// ---------------------------------------------------------------------------
// The calls
// ---------------------------------------------------------------------------

/// One of this module's calls, with its arguments.
#[derive(Clone, Copy, Debug, PartialEq, Eq, Structural)]
pub enum Request {
    Kill { pid: i32, signal: u32 },
    Tkill { tid: i32, signal: u32 },
    Tgkill { tgid: i32, tid: i32, signal: u32 },
    Pause,
    Alarm { seconds: u32 },
    Getitimer { which: u32, at: u64 },
    Setitimer { which: u32, new: u64, previous: u64 },
}

/// What a call asks for, if it is one of this module's: an `int` or an
/// `unsigned` is the low half of its register.
pub open spec fn spec_dispatch(call: Syscall, a: Seq<u64>) -> Option<Request> {
    let flag = |i: int| spec_low_u32(a[i] as int) as u32;
    let number = |i: int| spec_int(a[i] as int) as i32;
    match call {
        Syscall::Kill => Some(Request::Kill { pid: number(0), signal: flag(1) }),
        Syscall::Tkill => Some(Request::Tkill { tid: number(0), signal: flag(1) }),
        Syscall::Tgkill => Some(
            Request::Tgkill { tgid: number(0), tid: number(1), signal: flag(2) },
        ),
        Syscall::Pause => Some(Request::Pause),
        Syscall::Alarm => Some(Request::Alarm { seconds: flag(0) }),
        Syscall::Getitimer => Some(Request::Getitimer { which: flag(0), at: a[1] }),
        Syscall::Setitimer => Some(
            Request::Setitimer { which: flag(0), new: a[1], previous: a[2] },
        ),
        _ => None,
    }
}

/// What a call asks for, if it is one of this module's.
pub fn dispatch(call: Syscall, a: &[u64; 6]) -> (request: Option<Request>)
    ensures
        request == spec_dispatch(call, a@),
{
    let first: u32 = low_u32(a[0]);
    let second: u32 = low_u32(a[1]);
    match call {
        Syscall::Kill => Some(Request::Kill { pid: signed_32(first), signal: second }),
        Syscall::Tkill => Some(Request::Tkill { tid: signed_32(first), signal: second }),
        Syscall::Tgkill => Some(
            Request::Tgkill {
                tgid: signed_32(first),
                tid: signed_32(second),
                signal: low_u32(a[2]),
            },
        ),
        Syscall::Pause => Some(Request::Pause),
        Syscall::Alarm => Some(Request::Alarm { seconds: first }),
        Syscall::Getitimer => Some(Request::Getitimer { which: first, at: a[1] }),
        Syscall::Setitimer => Some(
            Request::Setitimer { which: first, new: a[1], previous: a[2] },
        ),
        _ => None,
    }
}

// ---------------------------------------------------------------------------
// What sending and timing are for
// ---------------------------------------------------------------------------

/// `kill` reaches whom its number names: above zero the process of that number
/// alone; with zero everyone in the caller's group; with -1 everyone but the
/// caller and the first process; and below that everyone in the group of the
/// number's magnitude. It is sent to each once.
pub proof fn law_kill_reaches_whom_it_names(
    process: Process,
    live: Seq<Process>,
    pid: int,
    i: int,
)
    requires
        live.len() <= usize::MAX,
        0 <= i < live.len(),
    ensures
        ({
            let list = spec_targets(process, live, pid);
            let there = list.contains(i as usize);
            &&& pid == -1 ==> (there <==> live[i].pid != process.pid && live[i].pid != 1)
            &&& pid == 0 ==> (there <==> live[i].pgid == process.pgid)
            &&& pid < -1 ==> (there <==> live[i].pgid == -pid)
            &&& pid > 0 ==> (there ==> live[i].pid == pid)
            &&& pid > 0 ==> list.len() <= 1
            &&& pid > 0 && live[i].pid == pid ==> list.len() == 1
            &&& forall|j: int, k: int| 0 <= j < k < list.len() ==> list[j] != list[k]
        }),
{
    let list = spec_targets(process, live, pid);
    crate::process::lemma_find(live, pid, 0);
    if pid <= 0 {
        lemma_reached(process, live, pid, live.len() as int, i);
        lemma_reached_once(process, live, pid, live.len() as int);
    } else if spec_find(live, pid, 0) is Some {
        let found = spec_find(live, pid, 0)->0;
        assert(list == seq![found as usize]);
        if list.contains(i as usize) {
            assert(list[0] == i as usize);
        }
    }
}

proof fn lemma_reached_once(process: Process, live: Seq<Process>, pid: int, n: int)
    requires
        0 <= n <= live.len(),
        live.len() <= usize::MAX,
    ensures
        forall|j: int|
            0 <= j < reached_of(process, live, pid, n).len() ==> #[trigger] reached_of(
                process,
                live,
                pid,
                n,
            )[j] < n,
        forall|j: int, k: int|
            0 <= j < k < reached_of(process, live, pid, n).len() ==> reached_of(
                process,
                live,
                pid,
                n,
            )[j] < reached_of(process, live, pid, n)[k],
    decreases n,
{
    if n > 0 {
        lemma_reached_once(process, live, pid, n - 1);
        let before = reached_of(process, live, pid, n - 1);
        let all = reached_of(process, live, pid, n);
        if reached(process, live[n - 1], pid) {
            assert(all == before.push((n - 1) as usize));
            assert forall|j: int| 0 <= j < all.len() implies #[trigger] all[j] < n by {
                if j < before.len() {
                    assert(all[j] == before[j]);
                }
            }
            assert forall|j: int, k: int| 0 <= j < k < all.len() implies all[j] < all[k] by {
                assert(all[j] == before[j]);
                if k < before.len() {
                    assert(all[k] == before[k]);
                }
            }
        } else {
            assert(all == before);
            assert forall|j: int| 0 <= j < all.len() implies #[trigger] all[j] < n by {
                assert(before[j] < n - 1);
            }
        }
    }
}

/// The thread that raises alarms rests until the earliest that is armed, and
/// until none that is not.
pub proof fn law_the_next_alarm_is_an_armed_one(alarms: Seq<Alarm>, n: int)
    requires
        0 <= n <= alarms.len(),
    ensures
        earliest(alarms, n) == u64::MAX || exists|i: int|
            0 <= i < n && (#[trigger] alarms[i]).deadline == earliest(alarms, n)
                && alarms[i].deadline != 0,
        forall|i: int|
            0 <= i < n && (#[trigger] alarms[i]).deadline != 0 ==> earliest(alarms, n)
                <= alarms[i].deadline,
    decreases n,
{
    if n > 0 {
        law_the_next_alarm_is_an_armed_one(alarms, n - 1);
        let rest = earliest(alarms, n - 1);
        if earliest(alarms, n) == rest && rest != u64::MAX {
            let i = choose|i: int|
                0 <= i < n - 1 && (#[trigger] alarms[i]).deadline == rest && alarms[i].deadline
                    != 0;
            assert(alarms[i].deadline == earliest(alarms, n));
        } else if earliest(alarms, n) != u64::MAX {
            assert(alarms[n - 1].deadline == earliest(alarms, n));
        }
    }
}

/// What is left of an alarm is the time to its deadline, and never less than a
/// microsecond while it is armed; its interval stays.
pub proof fn law_what_is_left_is_the_time_to_the_deadline(alarm: Alarm, now: u64)
    ensures
        ({
            let (interval, left) = spec_remaining(alarm, now);
            &&& interval == alarm.interval
            &&& left == 0 <==> alarm.deadline == 0
            &&& alarm.deadline != 0 ==> left >= 1000
            &&& alarm.deadline != 0 && alarm.deadline >= now + 1000 ==> left == alarm.deadline
                - now
            &&& alarm.deadline != 0 && alarm.deadline < now + 1000 ==> left == 1000
        }),
{
}

/// `alarm` answers the seconds left, to the nearest, and never zero while any
/// time is.
pub proof fn law_seconds_are_rounded_to_the_nearest(left: int)
    requires
        0 <= left,
    ensures
        left == 0 ==> rounded(left) == 0,
        0 < left < 1_000_000_000 ==> rounded(left) == 1,
        left >= 1_000_000_000 ==> -500_000_000 < rounded(left) * 1_000_000_000 - left
            <= 500_000_000,
{
}

/// A time in seconds and microseconds is that many nanoseconds, as far as a
/// number reaches; one that is no time is refused.
pub proof fn law_a_timeval_is_its_nanoseconds(seconds: int, micros: int)
    ensures
        spec_timeval(seconds, micros) is Ok <==> seconds >= 0 && 0 <= micros < 1_000_000,
        spec_timeval(seconds, micros) matches Err(e) ==> e == Errno::EINVAL,
        spec_timeval(seconds, micros) matches Ok(nanos) ==> seconds * 1_000_000_000 + micros * 1000
            <= u64::MAX ==> nanos == seconds * 1_000_000_000 + micros * 1000,
        spec_timeval(seconds, micros) matches Ok(nanos) ==> seconds * 1_000_000_000 + micros * 1000
            > u64::MAX ==> nanos == u64::MAX,
{
}

/// A timer that is told of is where it was asked for: interval and time left,
/// each as seconds and microseconds.
pub proof fn law_a_timer_is_told_field_by_field(m: Memory, at: u64, interval: u64, value: u64)
    requires
        m.valid(),
        m.can_write(at as int, 32),
    ensures
        ({
            let (after, result) = told_itimerval(m, at, interval, value, 8);
            &&& result == Ok::<usize, Errno>(0)
            &&& after.number(at as int, 8) == interval / 1_000_000_000
            &&& after.number(at + 8, 8) == interval / 1000 % 1_000_000
            &&& after.number(at + 16, 8) == value / 1_000_000_000
            &&& after.number(at + 24, 8) == value / 1000 % 1_000_000
        }),
{
    let data = itimerval_bytes(interval, value, 8);
    let a = (interval / NANOS_PER_SECOND) as nat;
    let b = (interval % NANOS_PER_SECOND / NANOS_PER_MICRO) as nat;
    let c = (value / NANOS_PER_SECOND) as nat;
    let d = (value % NANOS_PER_SECOND / NANOS_PER_MICRO) as nat;
    crate::bytes::lemma_byte_spans();
    crate::bytes::lemma_le_round_trip(a, 8);
    crate::bytes::lemma_le_round_trip(b, 8);
    crate::bytes::lemma_le_round_trip(c, 8);
    crate::bytes::lemma_le_round_trip(d, 8);
    crate::uaccess::lemma_number_written(m, at as int, data, 0, 8);
    crate::uaccess::lemma_number_written(m, at as int, data, 8, 8);
    crate::uaccess::lemma_number_written(m, at as int, data, 16, 8);
    crate::uaccess::lemma_number_written(m, at as int, data, 24, 8);
    assert(data.subrange(0, 8) =~= le_bytes(a, 8));
    assert(data.subrange(8, 16) =~= le_bytes(b, 8));
    assert(data.subrange(16, 24) =~= le_bytes(c, 8));
    assert(data.subrange(24, 32) =~= le_bytes(d, 8));
}

/// Setting the timer arms it for the time asked from now on, with the interval
/// asked, or disarms it for no time; only the timer of wall-clock time is kept,
/// and a refused call leaves it as it was. What it had left is told first.
pub proof fn law_a_timer_is_set_as_asked(
    m: Memory,
    alarm: Alarm,
    which: u32,
    new: u64,
    old_at: u64,
    now: u64,
    word: nat,
)
    ensures
        ({
            let (after, set, result) = spec_setitimer(m, alarm, which, new, old_at, now, word);
            let asked = spec_itimerval(m, new as int, word);
            &&& which != 0 ==> set == alarm
            &&& which > 2 ==> result is Err
            &&& new != 0 ==> (asked matches Err(e) ==> set == alarm && after == m && result
                == Err::<usize, Errno>(e))
            &&& which == 0 && new == 0 ==> set == (Alarm { deadline: 0, interval: 0 })
            &&& which == 0 && new != 0 ==> (asked matches Ok((interval, value)) ==> {
                &&& set.interval == interval
                &&& value == 0 ==> set.deadline == 0
                &&& value != 0 && now + value <= u64::MAX ==> set.deadline == now + value
                &&& value != 0 && now + value > u64::MAX ==> set.deadline == u64::MAX
            })
            &&& old_at == 0 && (new == 0 || asked is Ok) && which == 0 ==> after == m && result
                == Ok::<usize, Errno>(0)
            &&& old_at != 0 && which == 0 && (new == 0 || asked is Ok) ==> (after, result)
                == told_itimerval(
                m,
                old_at,
                spec_remaining(alarm, now).0,
                spec_remaining(alarm, now).1,
                word,
            )
        }),
{
}

/// Reading the timer tells what is left of it, and of those that are not kept
/// that nothing is.
pub proof fn law_reading_a_timer_tells_what_is_left(
    m: Memory,
    alarm: Alarm,
    which: u32,
    at: u64,
    now: u64,
    word: nat,
)
    ensures
        which == 0 ==> spec_getitimer(m, alarm, which, at, now, word) == told_itimerval(
            m,
            at,
            spec_remaining(alarm, now).0,
            spec_remaining(alarm, now).1,
            word,
        ),
        which == 1 || which == 2 ==> spec_getitimer(m, alarm, which, at, now, word)
            == told_itimerval(m, at, 0, 0, word),
        which > 2 ==> spec_getitimer(m, alarm, which, at, now, word) == (
            m,
            Err::<usize, Errno>(Errno::EINVAL),
        ),
{
}

/// The structure read for a timer is its interval and then its time, each in
/// seconds and microseconds.
pub proof fn law_a_timer_is_read_field_by_field(m: Memory, at: int)
    requires
        m.can_read(at, 32),
        m.number(at, 8) <= 1_000_000_000 && m.number(at + 8, 8) < 1_000_000,
        m.number(at + 16, 8) <= 1_000_000_000 && m.number(at + 24, 8) < 1_000_000,
    ensures
        spec_itimerval(m, at, 8) == Ok::<(u64, u64), Errno>(
            (
                (m.number(at, 8) * 1_000_000_000 + m.number(at + 8, 8) * 1000) as u64,
                (m.number(at + 16, 8) * 1_000_000_000 + m.number(at + 24, 8) * 1000) as u64,
            ),
        ),
{
}

/// Whether a 32-bit argument is the low half of its register.
pub open spec fn low_half(v: int, register: u64) -> bool {
    (register - v) % 0x1_0000_0000 == 0
}

/// A call is asked with its own registers, each argument from its own.
pub proof fn law_a_sending_call_takes_its_own_registers(call: Syscall, a: Seq<u64>)
    requires
        a.len() == 6,
    ensures
        spec_dispatch(call, a) matches Some(Request::Kill { pid, signal }) ==> call
            == Syscall::Kill && low_half(pid as int, a[0]) && low_half(signal as int, a[1]),
        spec_dispatch(call, a) matches Some(Request::Tkill { tid, signal }) ==> call
            == Syscall::Tkill && low_half(tid as int, a[0]) && low_half(signal as int, a[1]),
        spec_dispatch(call, a) matches Some(Request::Tgkill { tgid, tid, signal }) ==> call
            == Syscall::Tgkill && low_half(tgid as int, a[0]) && low_half(tid as int, a[1])
            && low_half(signal as int, a[2]),
        spec_dispatch(call, a) matches Some(Request::Alarm { seconds }) ==> call == Syscall::Alarm
            && low_half(seconds as int, a[0]),
        spec_dispatch(call, a) matches Some(Request::Getitimer { which, at }) ==> call
            == Syscall::Getitimer && low_half(which as int, a[0]) && at == a[1],
        spec_dispatch(call, a) matches Some(Request::Setitimer { which, new, previous }) ==> call
            == Syscall::Setitimer && low_half(which as int, a[0]) && new == a[1] && previous
            == a[2],
        spec_dispatch(call, a) is Some <==> call == Syscall::Kill || call == Syscall::Tkill || call
            == Syscall::Tgkill || call == Syscall::Pause || call == Syscall::Alarm || call
            == Syscall::Getitimer || call == Syscall::Setitimer,
        spec_dispatch(call, a) == Some(Request::Pause) <==> call == Syscall::Pause,
{
}

/// A signal is posted exactly if it is one, and its target still runs; and a
/// continue takes the target out of its stop first.
pub proof fn law_a_signal_is_posted_to_the_living(signal: u32, terminated: bool, sending: Sending)
    requires
        call_ensures(send, (signal, terminated), sending),
    ensures
        sending is Post <==> 1 <= signal <= 64 && !terminated,
        sending matches Sending::Post { leave_stop } ==> (leave_stop <==> signal == 18),
{
}

/// A sender ends whom a signal is fatal to, rouses whom it is pending for, and
/// owes nothing to whom it is discarded by.
pub proof fn law_a_sender_owes_what_was_posted(signal: u32, posted: Posted, owed: Owed)
    requires
        1 <= signal <= 64,
        call_ensures(after_post, (signal, posted), owed),
    ensures
        posted == Posted::Fatal <==> owed is Kill,
        owed matches Owed::Kill(status) ==> status == 128 + signal,
        posted == Posted::Pending <==> owed == Owed::Notify,
        posted == Posted::Discarded <==> owed == Owed::Nothing,
{
}

/// A parent is told of every change of its child: of a stop and a continue with
/// `SIGCHLD`, unless it asked not to be, and of an end with the child's own
/// signal; who it was and what became of them goes with it.
pub proof fn law_a_parent_is_told_of_its_child(
    ignores: Option<bool>,
    child: u32,
    signal: u32,
    code: i32,
    status: i32,
    told: Told,
)
    requires
        call_ensures(tell_parent, (ignores, child, signal, code, status), told),
    ensures
        ignores is None <==> told == Told::Nobody,
        told matches Told::Woken { send } ==> {
            let stop = code == 5 || code == 6;
            &&& send is None <==> stop && ignores == Some(true)
            &&& send matches Some((sent, origin)) ==> origin == (Origin::Child {
                code,
                pid: child,
                status,
            }) && (stop ==> sent == 17) && (!stop ==> sent == signal)
        },
{
}

/// A signal from the kernel goes to the running program, if it is one.
pub proof fn law_the_kernel_signals_the_running_program(
    signal: u32,
    current: Option<bool>,
    sending: Option<(Sending, Origin)>,
)
    requires
        call_ensures(send_to_current, (signal, current), sending),
    ensures
        current is None <==> sending is None,
        sending matches Some((what, origin)) ==> origin == Origin::Kernel && (what is Post <==> 1
            <= signal <= 64 && current == Some(false)),
{
}

/// Whoever is sent a signal is told who from: the caller, or a thread of it.
pub proof fn law_a_signal_says_who_from(
    process: Process,
    live: Vec<Process>,
    pid: i32,
    signal: u32,
    sent: Result<(Vec<usize>, Origin), Errno>,
    one: Result<(usize, Origin), Errno>,
)
    requires
        call_ensures(sys_kill, (&process, &live, pid, signal), sent),
        call_ensures(sys_tkill, (&process, &live, pid, signal), one),
    ensures
        sent matches Ok((list, origin)) ==> origin == (Origin::User { pid: process.pid })
            && list@.len() > 0 && signal <= 64,
        one matches Ok((at, origin)) ==> origin == (Origin::Thread { pid: process.pid }) && pid > 0
            && signal <= 64,
        signal > 64 ==> sent == Err::<(Vec<usize>, Origin), Errno>(Errno::EINVAL) && one == Err::<
            (usize, Origin),
            Errno,
        >(Errno::EINVAL),
{
}

/// A signal for one thread is refused for a number that is none, of a process,
/// a thread or a signal; and a thread that is not there, or not that process's,
/// is not found.
pub proof fn law_a_threads_signal_is_refused_for_a_reason(
    live: Seq<Process>,
    tgid: int,
    tid: int,
    signal: u32,
)
    ensures
        spec_tkill(live, tid, signal) == Err::<usize, Errno>(Errno::EINVAL) <==> tid < 1 || signal
            >= 65,
        spec_tkill(live, tid, signal) matches Err(e) ==> e == Errno::EINVAL || e == Errno::ESRCH,
        spec_tgkill(live, tgid, tid, signal) == Err::<usize, Errno>(Errno::EINVAL) <==> tgid < 1
            || tid < 1 || signal >= 65,
        spec_tgkill(live, tgid, tid, signal) matches Err(e) ==> e == Errno::EINVAL || e
            == Errno::ESRCH,
        spec_tgkill(live, tgid, tid, signal) matches Ok(i) ==> live[i as int].pid == tgid
            && spec_tkill(live, tid, signal) == Ok::<usize, Errno>(i),
{
}

} // verus!
