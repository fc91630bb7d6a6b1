//! `epoll_create1`, `epoll_create`, `epoll_ctl`, `epoll_wait`, `epoll_pwait`
//! and `epoll_pwait2`.
//!
//! The order of the checks is one a program can observe: `epoll_ctl` reads the
//! event before it looks up either descriptor, and asks whether the target can
//! be waited on before whether the set is a set; a wait checks how many events
//! it may give and the buffer's range before the descriptor.
//!
//! A signal ends a wait with `EINTR`, never a restart.

use vstd::prelude::*;

use crate::abi::{spec_int, Arch};
use crate::bytes::{
    le_bytes, le_encode, lemma_byte_spans, lemma_le_bytes_len, lemma_le_round_trip,
    lemma_le_value_bound,
};
use crate::errno::Errno;
use crate::fd::{arg, file, named, spec_file, FdTable, OpenFile};
use crate::time::{read_timespec, saturated, saturating_mul_add, spec_timespec};
use crate::uaccess::{AddressSpace, Memory};

verus! {

/// Add a descriptor to a set.
pub const EPOLL_CTL_ADD: u32 = 1;

/// Take one out.
pub const EPOLL_CTL_DEL: u32 = 2;

/// Change what is waited for.
pub const EPOLL_CTL_MOD: u32 = 3;

/// `execve` closes it.
pub const EPOLL_CLOEXEC: u32 = 0x8_0000;

/// Wake one waiter, not all.
pub const EPOLLEXCLUSIVE: u32 = 0x1000_0000;

/// The flags [`EPOLLEXCLUSIVE`] may be combined with: readable, writable, in
/// error, hung up, wakeup, edge-triggered, and itself.
pub const EXCLUSIVE_OK: u32 = 0xB000_001D;

/// Nanoseconds in a millisecond.
pub const NANOS_PER_MILLI: u64 = 1_000_000;

/// Bytes in a signal set.
pub const SIGSET_SIZE: u64 = 8;

// ---------------------------------------------------------------------------
// The event structure
// ---------------------------------------------------------------------------

/// Bytes in a `struct epoll_event`: packed to 12 on x86-64, 16 elsewhere.
pub open spec fn spec_event_bytes(arch: Arch) -> nat {
    match arch {
        Arch::X86_64 => 12,
        _ => 16,
    }
}

/// Bytes in a `struct epoll_event`.
pub fn event_bytes(arch: Arch) -> (n: usize)
    ensures
        n == spec_event_bytes(arch),
{
    match arch {
        Arch::X86_64 => 12,
        _ => 16,
    }
}

/// What a program waits for on a descriptor, and what it is told with it.
#[derive(Clone, Copy, Debug, PartialEq, Eq, Structural)]
pub struct Interest {
    /// The events.
    pub events: u32,
    /// What the program wants back.
    pub data: u64,
}

/// A `struct epoll_event`: the events, the padding where there is any, and the
/// data, which ends the structure.
pub open spec fn spec_encode(events: u32, data: u64, arch: Arch) -> Seq<u8> {
    let padding = Seq::new((spec_event_bytes(arch) - 12) as nat, |i: int| 0u8);
    le_bytes(events as nat, 4) + padding + le_bytes(data as nat, 8)
}

/// A `struct epoll_event` in the machine's layout.
pub fn encode(events: u32, data: u64, arch: Arch) -> (bytes: Vec<u8>)
    ensures
        bytes@ == spec_encode(events, data, arch),
        bytes@.len() == spec_event_bytes(arch),
{
    let mut bytes = le_encode(events as u64, 4);
    proof {
        lemma_le_bytes_len(events as nat, 4);
        lemma_le_bytes_len(data as nat, 8);
    }
    if arch != Arch::X86_64 {
        bytes.push(0);
        bytes.push(0);
        bytes.push(0);
        bytes.push(0);
    }
    let mut rest = le_encode(data, 8);
    bytes.append(&mut rest);
    assert(bytes@ =~= spec_encode(events, data, arch));
    bytes
}

/// The `struct epoll_event` at `at`; `EFAULT` if it cannot be read.
pub open spec fn spec_read_event(m: Memory, at: u64, arch: Arch) -> Result<Interest, Errno> {
    let size = spec_event_bytes(arch);
    if m.can_read(at as int, size as int) {
        Ok(
            Interest {
                events: m.number(at as int, 4) as u32,
                data: m.number(at + size - 8, 8) as u64,
            },
        )
    } else {
        Err(Errno::EFAULT)
    }
}

/// Read the program's `struct epoll_event`.
fn read_event(space: &AddressSpace, at: u64, arch: Arch) -> (interest: Result<Interest, Errno>)
    requires
        space.wf(),
    ensures
        interest == spec_read_event(space@, at, arch),
{
    let size: usize = event_bytes(arch);
    let bytes = space.copy_from_user(at, size)?;
    let low = vstd::slice::slice_subrange(bytes.as_slice(), 0, 4);
    let high = vstd::slice::slice_subrange(bytes.as_slice(), size - 8, size);
    proof {
        assert(low@ =~= space@.read(at as int, 4));
        assert(high@ =~= space@.read(at + size - 8, 8));
        lemma_byte_spans();
        lemma_le_value_bound(low@);
    }
    Ok(
        Interest {
            events: crate::bytes::le_decode(low) as u32,
            data: crate::bytes::le_decode(high),
        },
    )
}

/// An event a program was told of reads back as what it was told.
pub proof fn law_an_event_round_trips(
    m: Memory,
    at: u64,
    events: u32,
    data: u64,
    arch: Arch,
)
    requires
        m.valid(),
        m.can_write(at as int, spec_event_bytes(arch) as int),
    ensures
        spec_read_event(m.store(at as int, spec_encode(events, data, arch)), at, arch) == Ok::<
            Interest,
            Errno,
        >(Interest { events, data }),
{
    let size = spec_event_bytes(arch);
    let bytes = spec_encode(events, data, arch);
    lemma_le_bytes_len(events as nat, 4);
    lemma_le_bytes_len(data as nat, 8);
    lemma_byte_spans();
    lemma_le_round_trip(events as nat, 4);
    lemma_le_round_trip(data as nat, 8);
    assert forall|a: int| at <= a < at + size implies #[trigger] m.bytes.dom().contains(a) by {
        assert(m.writable.contains(a));
    }
    crate::uaccess::lemma_read_after_store(m, at as int, bytes, at as int, size);
    crate::uaccess::lemma_store_permissions(m, at as int, bytes, at as int, size as int);
    let after = m.store(at as int, bytes);
    assert(after.read(at as int, 4) =~= after.read(at as int, size).subrange(0, 4));
    assert(after.read(at + size - 8, 8) =~= after.read(at as int, size).subrange(
        size - 8,
        size as int,
    ));
    assert(bytes.subrange(0, 4) =~= le_bytes(events as nat, 4));
    assert(bytes.subrange(size - 8, size as int) =~= le_bytes(data as nat, 8));
}

// ---------------------------------------------------------------------------
// Making a set, and changing it
// ---------------------------------------------------------------------------

/// `epoll_create1`: whether `execve` closes the set's descriptor. It ends in
/// [`crate::fd::name_new`].
///
/// `EINVAL` for a flag other than [`EPOLL_CLOEXEC`].
pub fn sys_epoll_create1(flags: u32) -> (cloexec: Result<bool, Errno>)
    ensures
        cloexec == if flags & !EPOLL_CLOEXEC != 0 {
            Err::<bool, Errno>(Errno::EINVAL)
        } else {
            Ok(flags & EPOLL_CLOEXEC != 0)
        },
{
    if flags & !EPOLL_CLOEXEC != 0 {
        return Err(Errno::EINVAL);
    }
    Ok(flags & EPOLL_CLOEXEC != 0)
}

/// `epoll_create`: a size that is not positive is `EINVAL`, and any other is
/// ignored.
pub fn sys_epoll_create(size: i32) -> (cloexec: Result<bool, Errno>)
    ensures
        cloexec == if size <= 0 {
            Err::<bool, Errno>(Errno::EINVAL)
        } else {
            Ok(false)
        },
{
    if size <= 0 {
        return Err(Errno::EINVAL);
    }
    proof {
        assert(0u32 & !EPOLL_CLOEXEC == 0 && 0u32 & EPOLL_CLOEXEC == 0) by (bit_vector);
    }
    sys_epoll_create1(0)
}

/// The file a descriptor names: `EBADF` for nothing, and for one that is only
/// a path.
pub open spec fn spec_waitable(table: FdTable, open: Seq<OpenFile>, fd: int) -> Result<
    usize,
    Errno,
> {
    match spec_file(table, open, fd) {
        Err(e) => Err(e),
        Ok(file) => if file.path_only {
            Err(Errno::EBADF)
        } else {
            Ok(table@[fd].file)
        },
    }
}

/// The file a descriptor names.
fn waitable(table: &FdTable, open: &Vec<OpenFile>, fd: i32) -> (found: Result<usize, Errno>)
    requires
        named(*table, open@.len()),
    ensures
        found == spec_waitable(*table, open@, fd as int),
        found matches Ok(k) ==> k < open@.len(),
{
    let named_file = file(table, open, fd)?;
    if named_file.path_only {
        return Err(Errno::EBADF);
    }
    table.get(fd)
}

/// What `epoll_ctl` asks of a set.
#[derive(Clone, Copy, Debug, PartialEq, Eq, Structural)]
pub enum Control {
    /// Wait for this on that file, under the descriptor it was named by.
    Add { set: usize, fd: i32, target: usize, interest: Interest },
    /// Wait for this instead.
    Modify { set: usize, fd: i32, target: usize, interest: Interest },
    /// Wait for it no more.
    Remove { set: usize, fd: i32, target: usize },
}

/// Whether an interest misuses [`EPOLLEXCLUSIVE`]: it may only be added, not
/// changed, not on another set, and only with the flags it goes with.
pub open spec fn exclusive_misused(op: u32, events: u32, target_is_set: bool) -> bool {
    events & EPOLLEXCLUSIVE != 0 && (op == EPOLL_CTL_MOD || (op == EPOLL_CTL_ADD && (target_is_set
        || events & !EXCLUSIVE_OK != 0)))
}

/// What `epoll_ctl` asks of a set, or why it is refused.
pub open spec fn spec_epoll_ctl(
    m: Memory,
    table: FdTable,
    open: Seq<OpenFile>,
    epfd: int,
    op: u32,
    fd: int,
    event: u64,
    arch: Arch,
) -> Result<Control, Errno> {
    let read = spec_read_event(m, event, arch);
    if op != EPOLL_CTL_DEL && read is Err {
        Err(Errno::EFAULT)
    } else {
        match spec_waitable(table, open, epfd) {
            Err(e) => Err(e),
            Ok(set) => match spec_waitable(table, open, fd) {
                Err(e) => Err(e),
                Ok(target) => if !open[target as int].pollable {
                    Err(Errno::EPERM)
                } else if !open[set as int].epoll_set || set == target {
                    Err(Errno::EINVAL)
                } else if op == EPOLL_CTL_DEL {
                    Ok(Control::Remove { set, fd: fd as i32, target })
                } else {
                    let interest = read->Ok_0;
                    if exclusive_misused(op, interest.events, open[target as int].epoll_set) {
                        Err(Errno::EINVAL)
                    } else if op == EPOLL_CTL_ADD {
                        Ok(Control::Add { set, fd: fd as i32, target, interest })
                    } else if op == EPOLL_CTL_MOD {
                        Ok(Control::Modify { set, fd: fd as i32, target, interest })
                    } else {
                        Err(Errno::EINVAL)
                    }
                },
            },
        }
    }
}

/// `epoll_ctl`: what to ask of the set. What the set refuses is the answer
/// then, and zero otherwise.
///
/// `EFAULT` for an unreadable event on an operation that takes one; `EBADF`
/// for a descriptor that names nothing; `EPERM` for a target that cannot be
/// waited on; `EINVAL` for a set that is not one, a set added to itself, an
/// unknown operation or a misuse of [`EPOLLEXCLUSIVE`].
pub fn sys_epoll_ctl(
    space: &AddressSpace,
    table: &FdTable,
    open: &Vec<OpenFile>,
    epfd: i32,
    op: u32,
    fd: i32,
    event: u64,
    arch: Arch,
) -> (control: Result<Control, Errno>)
    requires
        space.wf(),
        named(*table, open@.len()),
    ensures
        control == spec_epoll_ctl(
            space@,
            *table,
            open@,
            epfd as int,
            op,
            fd as int,
            event,
            arch,
        ),
{
    let interest: Interest = if op == EPOLL_CTL_DEL {
        Interest { events: 0, data: 0 }
    } else {
        read_event(space, event, arch)?
    };
    let set: usize = waitable(table, open, epfd)?;
    let target: usize = waitable(table, open, fd)?;
    if !open[target].pollable {
        return Err(Errno::EPERM);
    }
    if !open[set].epoll_set || set == target {
        return Err(Errno::EINVAL);
    }
    if op == EPOLL_CTL_DEL {
        return Ok(Control::Remove { set, fd, target });
    }
    if interest.events & EPOLLEXCLUSIVE != 0 {
        if op == EPOLL_CTL_MOD {
            return Err(Errno::EINVAL);
        }
        if op == EPOLL_CTL_ADD && (open[target].epoll_set || interest.events & !EXCLUSIVE_OK
            != 0) {
            return Err(Errno::EINVAL);
        }
    }
    if op == EPOLL_CTL_ADD {
        Ok(Control::Add { set, fd, target, interest })
    } else if op == EPOLL_CTL_MOD {
        Ok(Control::Modify { set, fd, target, interest })
    } else {
        Err(Errno::EINVAL)
    }
}

/// No set is ever asked to wait for itself.
pub proof fn law_a_set_never_holds_itself(
    m: Memory,
    table: FdTable,
    open: Seq<OpenFile>,
    epfd: int,
    op: u32,
    fd: int,
    event: u64,
    arch: Arch,
)
    ensures
        match spec_epoll_ctl(m, table, open, epfd, op, fd, event, arch) {
            Ok(Control::Add { set, target, .. }) => set != target && open[set as int].epoll_set,
            Ok(Control::Modify { set, target, .. }) => set != target && open[set as int].epoll_set,
            Ok(Control::Remove { set, target, .. }) => set != target && open[set as int].epoll_set,
            Err(_) => true,
        },
{
}

// ---------------------------------------------------------------------------
// Waiting
// ---------------------------------------------------------------------------

/// A wait on a set.
#[derive(Clone, Copy, Debug, PartialEq, Eq)]
pub struct Wait {
    /// The set.
    pub set: usize,
    /// The most events to give.
    pub limit: usize,
    /// When to stop waiting, if ever.
    pub deadline: Option<u64>,
}

/// The most events one wait may ask for.
pub open spec fn spec_max_events(arch: Arch) -> int {
    i32::MAX as int / spec_event_bytes(arch) as int
}

/// The wait all three calls take.
pub open spec fn spec_wait(
    space: AddressSpace,
    table: FdTable,
    open: Seq<OpenFile>,
    epfd: int,
    events: u64,
    maxevents: int,
    deadline: Option<u64>,
    arch: Arch,
) -> Result<Wait, Errno> {
    if maxevents <= 0 || maxevents > spec_max_events(arch) {
        Err(Errno::EINVAL)
    } else if events + maxevents * spec_event_bytes(arch) > space.user_end {
        Err(Errno::EFAULT)
    } else {
        match spec_waitable(table, open, epfd) {
            Err(e) => Err(e),
            Ok(set) => if open[set as int].epoll_set {
                Ok(Wait { set, limit: maxevents as usize, deadline })
            } else {
                Err(Errno::EINVAL)
            },
        }
    }
}

/// The wait all three calls take: how many events may be given, then the
/// buffer's range, then the descriptor, then whether it is a set.
fn wait(
    space: &AddressSpace,
    table: &FdTable,
    open: &Vec<OpenFile>,
    epfd: i32,
    events: u64,
    maxevents: i32,
    deadline: Option<u64>,
    arch: Arch,
) -> (plan: Result<Wait, Errno>)
    requires
        named(*table, open@.len()),
    ensures
        plan == spec_wait(
            *space,
            *table,
            open@,
            epfd as int,
            events,
            maxevents as int,
            deadline,
            arch,
        ),
{
    let size: i32 = match arch {
        Arch::X86_64 => 12,
        _ => 16,
    };
    let most: i32 = match arch {
        Arch::X86_64 => 178_956_970,
        _ => 134_217_727,
    };
    assert(most == spec_max_events(arch));
    if maxevents <= 0 || maxevents > most {
        return Err(Errno::EINVAL);
    }
    assert(maxevents * size <= i32::MAX) by (nonlinear_arith)
        requires
            0 < maxevents <= most,
            (size == 12 && most == 178_956_970) || (size == 16 && most == 134_217_727),
    ;
    assert(0 < maxevents * size) by (nonlinear_arith)
        requires
            0 < maxevents,
            0 < size,
    ;
    let bytes: u64 = (maxevents * size) as u64;
    if bytes > space.user_end || events > space.user_end - bytes {
        return Err(Errno::EFAULT);
    }
    let set: usize = waitable(table, open, epfd)?;
    if !open[set].epoll_set {
        return Err(Errno::EINVAL);
    }
    Ok(Wait { set, limit: maxevents as usize, deadline })
}

/// When a wait of `timeout` milliseconds from `now` is over; never, for a
/// negative one.
pub open spec fn spec_deadline(timeout: int, now: u64) -> Option<u64> {
    if timeout < 0 {
        None
    } else {
        Some(saturated(timeout * NANOS_PER_MILLI + now) as u64)
    }
}

/// `epoll_wait`: `timeout` in milliseconds, negative for no limit.
///
/// `EINVAL` for `maxevents` not positive or past the most, or a descriptor
/// that is not a set; `EFAULT` for a buffer outside the program's half;
/// `EBADF` for a descriptor that names nothing.
pub fn sys_epoll_wait(
    space: &AddressSpace,
    table: &FdTable,
    open: &Vec<OpenFile>,
    epfd: i32,
    events: u64,
    maxevents: i32,
    timeout: i32,
    now: u64,
    arch: Arch,
) -> (plan: Result<Wait, Errno>)
    requires
        named(*table, open@.len()),
    ensures
        plan == spec_wait(
            *space,
            *table,
            open@,
            epfd as int,
            events,
            maxevents as int,
            spec_deadline(timeout as int, now),
            arch,
        ),
{
    let deadline: Option<u64> = if timeout < 0 {
        None
    } else {
        Some(saturating_mul_add(timeout as u64, NANOS_PER_MILLI, now))
    };
    wait(space, table, open, epfd, events, maxevents, deadline, arch)
}

/// The signal mask a wait is made under: none for a null pointer, `EINVAL` for
/// a set of the wrong size, `EFAULT` for an unreadable one.
pub open spec fn spec_sigmask(m: Memory, sigmask: u64, sigsetsize: u64) -> Result<
    Option<u64>,
    Errno,
> {
    if sigmask == 0 {
        Ok(None)
    } else if sigsetsize != SIGSET_SIZE {
        Err(Errno::EINVAL)
    } else if !m.can_read(sigmask as int, 8) {
        Err(Errno::EFAULT)
    } else {
        Ok(Some(m.number(sigmask as int, 8) as u64))
    }
}

/// Read the signal mask a wait is made under.
fn read_sigmask(space: &AddressSpace, sigmask: u64, sigsetsize: u64) -> (mask: Result<
    Option<u64>,
    Errno,
>)
    requires
        space.wf(),
    ensures
        mask == spec_sigmask(space@, sigmask, sigsetsize),
{
    if sigmask == 0 {
        return Ok(None);
    }
    if sigsetsize != SIGSET_SIZE {
        return Err(Errno::EINVAL);
    }
    let mask: u64 = space.get_number(sigmask, 8)?;
    Ok(Some(mask))
}

/// A wait, and the signal mask it is made under.
pub open spec fn masked(mask: Result<Option<u64>, Errno>, plan: Result<Wait, Errno>) -> Result<
    (Option<u64>, Wait),
    Errno,
> {
    match mask {
        Err(e) => Err(e),
        Ok(mask) => match plan {
            Err(e) => Err(e),
            Ok(plan) => Ok((mask, plan)),
        },
    }
}

/// `epoll_pwait`: as [`sys_epoll_wait`], under the signal mask at its fifth
/// argument, which is read before anything else.
pub fn sys_epoll_pwait(
    space: &AddressSpace,
    table: &FdTable,
    open: &Vec<OpenFile>,
    a: &[u64; 6],
    now: u64,
    arch: Arch,
) -> (plan: Result<(Option<u64>, Wait), Errno>)
    requires
        space.wf(),
        named(*table, open@.len()),
    ensures
        plan == masked(
            spec_sigmask(space@, a@[4], a@[5]),
            spec_wait(
                *space,
                *table,
                open@,
                spec_int(a@[0] as int),
                a@[1],
                spec_int(a@[2] as int),
                spec_deadline(spec_int(a@[3] as int), now),
                arch,
            ),
        ),
{
    let mask = read_sigmask(space, a[4], a[5])?;
    let plan = sys_epoll_wait(
        space,
        table,
        open,
        arg(a[0]),
        a[1],
        arg(a[2]),
        arg(a[3]),
        now,
        arch,
    )?;
    Ok((mask, plan))
}

/// What `epoll_pwait2` waits for.
pub open spec fn spec_pwait2(
    space: AddressSpace,
    table: FdTable,
    open: Seq<OpenFile>,
    a: Seq<u64>,
    now: u64,
    arch: Arch,
) -> Result<(Option<u64>, Wait), Errno> {
    let deadline = if a[3] == 0 {
        Ok(None)
    } else {
        match spec_timespec(space@, a[3] as int, 8) {
            Err(e) => Err(e),
            Ok(nanos) => Ok(Some(saturated(now + nanos) as u64)),
        }
    };
    match deadline {
        Err(e) => Err(e),
        Ok(deadline) => masked(
            spec_sigmask(space@, a[4], a[5]),
            spec_wait(
                space,
                table,
                open,
                spec_int(a[0] as int),
                a[1],
                spec_int(a[2] as int),
                deadline,
                arch,
            ),
        ),
    }
}

/// `epoll_pwait2`: as [`sys_epoll_pwait`], with the timeout two 64-bit numbers
/// on every machine, or null for no limit.
///
/// `EFAULT` for an unreadable timeout and `EINVAL` for a malformed one, first.
pub fn sys_epoll_pwait2(
    space: &AddressSpace,
    table: &FdTable,
    open: &Vec<OpenFile>,
    a: &[u64; 6],
    now: u64,
    arch: Arch,
) -> (plan: Result<(Option<u64>, Wait), Errno>)
    requires
        space.wf(),
        named(*table, open@.len()),
    ensures
        plan == spec_pwait2(*space, *table, open@, a@, now, arch),
{
    let deadline: Option<u64> = if a[3] == 0 {
        None
    } else {
        let nanos: u64 = read_timespec(space, a[3], 8)?;
        match now.checked_add(nanos) {
            Some(at) => Some(at),
            None => Some(u64::MAX),
        }
    };
    let mask = read_sigmask(space, a[4], a[5])?;
    let plan = wait(space, table, open, arg(a[0]), a[1], arg(a[2]), deadline, arch)?;
    Ok((mask, plan))
}

/// What a wait does next.
#[derive(Clone, Copy, Debug, PartialEq, Eq)]
pub enum Waiting {
    /// Give the program what is ready.
    Deliver,
    /// Answer this.
    Answer(Result<usize, Errno>),
    /// Sleep until something is ready, a signal arrives, or this time.
    Sleep { until: u64 },
}

/// What a wait does, once it has looked at its set: what is ready goes first,
/// then the deadline, then a signal.
pub fn look(ready: usize, deadline: Option<u64>, now: u64, signal: bool) -> (next: Waiting)
    ensures
        next == if ready > 0 {
            Waiting::Deliver
        } else if deadline is Some && now >= deadline->0 {
            Waiting::Answer(Ok(0))
        } else if signal {
            Waiting::Answer(Err(Errno::EINTR))
        } else {
            Waiting::Sleep {
                until: match deadline {
                    Some(at) => at,
                    None => u64::MAX,
                },
            }
        },
{
    if ready > 0 {
        return Waiting::Deliver;
    }
    if let Some(at) = deadline {
        if now >= at {
            return Waiting::Answer(Ok(0));
        }
    }
    if signal {
        return Waiting::Answer(Err(Errno::EINTR));
    }
    Waiting::Sleep {
        until: match deadline {
            Some(at) => at,
            None => u64::MAX,
        },
    }
}

/// The memory once the events from the `i`-th on have been written one after
/// another, and how many were, those before them among them: a write that
/// fails stops there.
pub open spec fn spec_deliver(m: Memory, at: int, ready: Seq<Interest>, arch: Arch, i: int) -> (
    Memory,
    int,
)
    decreases ready.len() - i,
{
    if i >= ready.len() {
        (m, i)
    } else {
        match m.put(
            at + i * spec_event_bytes(arch),
            spec_encode(ready[i].events, ready[i].data, arch),
        ) {
            Err(_) => (m, i),
            Ok(after) => spec_deliver(after, at, ready, arch, i + 1),
        }
    }
}

/// Write what is ready into the program's buffer, one event after another. A
/// write that fails stops there and leaves the rest due; a wait that wrote
/// none is `EFAULT`. Otherwise the answer is how many were written.
pub fn deliver(space: &mut AddressSpace, at: u64, ready: &Vec<Interest>, arch: Arch) -> (result:
    Result<usize, Errno>)
    requires
        old(space).wf(),
    ensures
        final(space).wf(),
        final(space).same_layout(*old(space)),
        ({
            let (after, written) = spec_deliver(old(space)@, at as int, ready@, arch, 0);
            &&& final(space)@ == after
            &&& result == if written == 0 {
                Err::<usize, Errno>(Errno::EFAULT)
            } else {
                Ok(written as usize)
            }
        }),
{
    let size: u64 = event_bytes(arch) as u64;
    let ghost all = spec_deliver(space@, at as int, ready@, arch, 0);
    let mut written: usize = 0;
    let mut place: u128 = at as u128;
    let mut open = true;
    let count: usize = ready.len();
    while open && written < count
        invariant
            count == ready@.len(),
            space.wf(),
            space.same_layout(*old(space)),
            written <= ready@.len(),
            size == spec_event_bytes(arch),
            place == at + written * size,
            place <= 0x1000_0000_0000_0000_0000_0000_0000,
            written <= u64::MAX,
            open ==> all == spec_deliver(space@, at as int, ready@, arch, written as int),
            !open ==> all == (space@, written as int),
        decreases ready@.len() - written, open as int,
    {
        let event = ready[written];
        let encoded = encode(event.events, event.data, arch);
        let done = if place > u64::MAX as u128 {
            proof {
                assert(!space@.can_write(place as int, encoded@.len() as int)) by {
                    space.lemma_unmapped_above(place as int);
                    assert(!space@.writable.contains(place as int));
                }
            }
            false
        } else {
            match space.copy_to_user(place as u64, encoded.as_slice()) {
                Ok(_) => true,
                Err(_) => false,
            }
        };
        if done {
            proof {
                assert((written + 1) * size == written * size + size) by (nonlinear_arith);
                assert((written + 1) * size <= 0x1_0000_0000_0000_0000 * 16) by (nonlinear_arith)
                    requires
                        written + 1 <= 0x1_0000_0000_0000_0000,
                        0 <= size <= 16,
                ;
            }
            written = written + 1;
            place = place + size as u128;
        } else {
            open = false;
        }
    }
    if written == 0 {
        return Err(Errno::EFAULT);
    }
    Ok(written)
}

// ---------------------------------------------------------------------------
// What watching descriptors is for
// ---------------------------------------------------------------------------

/// A change to a set is the one that was asked: of the set and the file the two
/// descriptors name, with the interest that is in the program's memory.
pub proof fn law_a_set_is_changed_as_asked(
    m: Memory,
    table: FdTable,
    open: Seq<OpenFile>,
    epfd: int,
    op: u32,
    fd: int,
    event: u64,
    arch: Arch,
)
    requires
        -0x8000_0000 <= fd <= 0x7FFF_FFFF,
    ensures
        ({
            let answer = spec_epoll_ctl(m, table, open, epfd, op, fd, event, arch);
            let size: int = if arch == Arch::X86_64 {
                12
            } else {
                16
            };
            &&& answer is Ok ==> {
                &&& table@.dom().contains(epfd) && table@.dom().contains(fd)
                &&& !open[table@[epfd].file as int].path_only
                &&& !open[table@[fd].file as int].path_only
                &&& open[table@[epfd].file as int].epoll_set
                &&& open[table@[fd].file as int].pollable
                &&& table@[epfd].file != table@[fd].file
            }
            &&& answer matches Ok(Control::Remove { set, fd: named, target }) ==> op == 2 && set
                == table@[epfd].file && named == fd && target == table@[fd].file
            &&& answer matches Ok(Control::Add { set, fd: named, target, interest }) ==> op == 1
                && set == table@[epfd].file && named == fd && target == table@[fd].file
                && interest.events == m.number(event as int, 4) as u32 && interest.data == m.number(
                event + size - 8,
                8,
            ) as u64
            &&& answer matches Ok(Control::Modify { set, fd: named, target, interest }) ==> op == 3
                && set == table@[epfd].file && named == fd && target == table@[fd].file
                && interest.events == m.number(event as int, 4) as u32 && interest.data == m.number(
                event + size - 8,
                8,
            ) as u64
            &&& op == 0 || op > 3 ==> answer is Err
            &&& op != 2 && !m.can_read(event as int, size) ==> answer == Err::<Control, Errno>(
                Errno::EFAULT,
            )
        }),
{
}

/// A sound change is granted: two different descriptions, one a set and the
/// other a file that can be waited on, an interest that can be read, and
/// nothing exclusive about it.
pub proof fn law_a_sound_change_is_granted(
    m: Memory,
    table: FdTable,
    open: Seq<OpenFile>,
    epfd: int,
    op: u32,
    fd: int,
    event: u64,
    arch: Arch,
)
    requires
        table@.dom().contains(epfd) && table@.dom().contains(fd),
        !open[table@[epfd].file as int].path_only && !open[table@[fd].file as int].path_only,
        open[table@[epfd].file as int].epoll_set && open[table@[fd].file as int].pollable,
        table@[epfd].file != table@[fd].file,
        op == 2 || (m.can_read(event as int, 16) && (m.number(event as int, 4) as u32) & 0x1000_0000
            == 0),
        1 <= op <= 3,
    ensures
        spec_epoll_ctl(m, table, open, epfd, op, fd, event, arch) is Ok,
{
    assert(m.can_read(event as int, 16) ==> m.can_read(event as int, 12));
}

/// A wait is on the set its descriptor names, for as many events as it has room
/// for, all of it in the user half.
pub proof fn law_a_wait_is_on_its_set(
    space: AddressSpace,
    table: FdTable,
    open: Seq<OpenFile>,
    epfd: int,
    events: u64,
    maxevents: int,
    deadline: Option<u64>,
    arch: Arch,
)
    requires
        maxevents <= 0x7FFF_FFFF,
    ensures
        ({
            let answer = spec_wait(space, table, open, epfd, events, maxevents, deadline, arch);
            let size: int = if arch == Arch::X86_64 {
                12
            } else {
                16
            };
            &&& answer matches Ok(wait) ==> {
                &&& table@.dom().contains(epfd)
                &&& wait.set == table@[epfd].file
                &&& open[wait.set as int].epoll_set
                &&& wait.limit == maxevents && maxevents > 0
                &&& wait.deadline == deadline
                &&& events + maxevents * size <= space.user_end
            }
            &&& maxevents <= 0 ==> answer == Err::<Wait, Errno>(Errno::EINVAL)
            &&& 0 < maxevents <= 1_000_000 && events + maxevents * size <= space.user_end
                && table@.dom().contains(epfd) && open[table@[epfd].file as int].epoll_set
                && !open[table@[epfd].file as int].path_only ==> answer is Ok
            &&& 0 < maxevents <= 1_000_000 && events + maxevents * size > space.user_end ==> answer
                == Err::<Wait, Errno>(Errno::EFAULT)
        }),
{
}

/// A timeout is in milliseconds from now; a negative one is none.
pub proof fn law_a_timeout_is_in_milliseconds(timeout: int, now: u64)
    ensures
        spec_deadline(timeout, now) is None <==> timeout < 0,
        timeout >= 0 && now + timeout * 1_000_000 <= u64::MAX ==> spec_deadline(timeout, now)
            == Some((now + timeout * 1_000_000) as u64),
        timeout >= 0 && now + timeout * 1_000_000 > u64::MAX ==> spec_deadline(timeout, now) == Some(
            u64::MAX,
        ),
{
}

/// The mask of a wait is the one in the program's memory, and none for a null
/// pointer.
pub proof fn law_a_waits_mask_is_the_programs(m: Memory, sigmask: u64, sigsetsize: u64)
    ensures
        sigmask == 0 ==> spec_sigmask(m, sigmask, sigsetsize) == Ok::<Option<u64>, Errno>(None),
        sigmask != 0 && sigsetsize != 8 ==> spec_sigmask(m, sigmask, sigsetsize) == Err::<
            Option<u64>,
            Errno,
        >(Errno::EINVAL),
        sigmask != 0 && sigsetsize == 8 && m.can_read(sigmask as int, 8) ==> spec_sigmask(
            m,
            sigmask,
            sigsetsize,
        ) == Ok::<Option<u64>, Errno>(Some(m.number(sigmask as int, 8) as u64)),
        sigmask != 0 && sigsetsize == 8 && !m.can_read(sigmask as int, 8) ==> spec_sigmask(
            m,
            sigmask,
            sigsetsize,
        ) == Err::<Option<u64>, Errno>(Errno::EFAULT),
{
}

proof fn lemma_delivered(m: Memory, at: int, ready: Seq<Interest>, arch: Arch, i: int)
    requires
        0 <= i <= ready.len(),
        m.valid(),
    ensures
        ({
            let (after, n) = spec_deliver(m, at, ready, arch, i);
            &&& i <= n <= ready.len()
            &&& after.valid()
            &&& after.bytes.dom() == m.bytes.dom()
            &&& after.writable == m.writable
            &&& forall|a: int|
                a < at + i * spec_event_bytes(arch) && m.bytes.dom().contains(a)
                    ==> #[trigger] after.bytes[a] == m.bytes[a]
            &&& n < ready.len() ==> !m.can_write(
                at + n * spec_event_bytes(arch),
                spec_event_bytes(arch) as int,
            )
        }),
    decreases ready.len() - i,
{
    let size = spec_event_bytes(arch);
    if i < ready.len() {
        let data = spec_encode(ready[i].events, ready[i].data, arch);
        lemma_le_bytes_len(ready[i].events as nat, 4);
        lemma_le_bytes_len(ready[i].data as nat, 8);
        assert(data.len() == size);
        let place = at + i * size;
        if m.can_write(place, data.len() as int) {
            let next = m.store(place, data);
            assert(next.bytes.dom() =~= m.bytes.dom());
            lemma_delivered(next, at, ready, arch, i + 1);
            assert((i + 1) * size == i * size + size) by (nonlinear_arith);
            let (after, n) = spec_deliver(m, at, ready, arch, i);
            assert forall|a: int| a < place && m.bytes.dom().contains(a) implies #[trigger] after.bytes[a]
                == m.bytes[a] by {
                assert(next.bytes[a] == m.bytes[a]);
            }
            if n < ready.len() {
                crate::uaccess::lemma_store_permissions(
                    m,
                    place,
                    data,
                    at + n * size,
                    size as int,
                );
            }
        }
    }
}

/// The events a program is told of are the first that were ready, one behind
/// the other, each as it was; fewer are told only where no more can be written.
pub proof fn law_the_first_ready_are_told(
    m: Memory,
    at: int,
    ready: Seq<Interest>,
    arch: Arch,
    i: int,
    k: int,
)
    requires
        0 <= i <= k < ready.len(),
        m.valid(),
        k < spec_deliver(m, at, ready, arch, i).1,
    ensures
        ({
            let (after, n) = spec_deliver(m, at, ready, arch, i);
            let place = at + k * spec_event_bytes(arch);
            &&& after.number(place, 4) == ready[k].events
            &&& after.number(place + spec_event_bytes(arch) - 8, 8) == ready[k].data
            &&& n == ready.len() || !m.can_write(
                at + n * spec_event_bytes(arch),
                spec_event_bytes(arch) as int,
            )
        }),
    decreases k - i,
{
    let size = spec_event_bytes(arch);
    let (after, n) = spec_deliver(m, at, ready, arch, i);
    lemma_delivered(m, at, ready, arch, i);
    let data = spec_encode(ready[i].events, ready[i].data, arch);
    lemma_le_bytes_len(ready[i].events as nat, 4);
    lemma_le_bytes_len(ready[i].data as nat, 8);
    let place = at + i * size;
    let next = m.store(place, data);
    assert(next.bytes.dom() =~= m.bytes.dom());
    assert((i + 1) * size == i * size + size) by (nonlinear_arith);
    lemma_delivered(next, at, ready, arch, i + 1);
    if i < k {
        law_the_first_ready_are_told(next, at, ready, arch, i + 1, k);
    } else {
        lemma_byte_spans();
        lemma_le_round_trip(ready[i].events as nat, 4);
        lemma_le_round_trip(ready[i].data as nat, 8);
        crate::uaccess::lemma_number_written(m, place, data, 0, 4);
        crate::uaccess::lemma_number_written(m, place, data, size - 8, 8);
        assert(data.subrange(0, 4) =~= le_bytes(ready[i].events as nat, 4));
        assert(data.subrange(size - 8, size as int) =~= le_bytes(ready[i].data as nat, 8));
        assert forall|a: int| place <= a < place + size implies #[trigger] m.bytes.dom().contains(
            a,
        ) by {
            assert(m.writable.contains(a));
        }
        assert forall|a: int| place <= a < place + size implies #[trigger] after.bytes[a]
            == next.bytes[a] by {
            assert(m.bytes.dom().contains(a));
        }
        assert(after.read(place, 4) =~= next.read(place, 4));
        assert(after.read(place + size - 8, 8) =~= next.read(place + size - 8, 8));
    }
}

/// A set is made with the one flag there is, or none.
pub proof fn law_a_set_is_made_with_one_flag(
    flags: u32,
    size: i32,
    made: Result<bool, Errno>,
    plain: Result<bool, Errno>,
)
    requires
        call_ensures(sys_epoll_create1, (flags,), made),
        call_ensures(sys_epoll_create, (size,), plain),
    ensures
        made == Ok::<bool, Errno>(true) <==> flags == 0x8_0000,
        made == Ok::<bool, Errno>(false) <==> flags == 0,
        made matches Err(e) ==> e == Errno::EINVAL,
        plain == Ok::<bool, Errno>(false) <==> size > 0,
        plain matches Err(e) ==> e == Errno::EINVAL,
{
    assert({
        &&& flags & !0x8_0000u32 == 0 <==> flags == 0 || flags == 0x8_0000
        &&& flags == 0x8_0000 ==> flags & 0x8_0000 != 0
        &&& flags == 0 ==> flags & 0x8_0000 == 0
    }) by (bit_vector);
}

/// A wait delivers what is ready before anything else; with nothing ready it is
/// over when its time is, and then when a signal is there; and else it sleeps
/// until its time, or for as long as it takes.
pub proof fn law_what_is_ready_comes_first(
    ready: usize,
    deadline: Option<u64>,
    now: u64,
    signal: bool,
    next: Waiting,
)
    requires
        call_ensures(look, (ready, deadline, now, signal), next),
    ensures
        next == Waiting::Deliver <==> ready > 0,
        next == Waiting::Answer(Ok(0)) <==> ready == 0 && deadline is Some && deadline->0 <= now,
        next == Waiting::Answer(Err(Errno::EINTR)) <==> ready == 0 && !(deadline is Some
            && deadline->0 <= now) && signal,
        next matches Waiting::Sleep { until } ==> ready == 0 && !signal && (deadline matches Some(at)
            ==> until == at && now < at) && (deadline is None ==> until == u64::MAX),
{
}

/// Only a file that can be told apart may be waited on exclusively: when it is
/// added, with nothing but the events that go with that, and no set.
pub proof fn law_an_exclusive_wait_is_added_alone(op: u32, events: u32, target_is_set: bool)
    ensures
        events & 0x1000_0000 == 0 ==> !exclusive_misused(op, events, target_is_set),
        events & 0x1000_0000 != 0 && op == 3 ==> exclusive_misused(op, events, target_is_set),
        events & 0x1000_0000 != 0 && op == 1 && target_is_set ==> exclusive_misused(
            op,
            events,
            target_is_set,
        ),
        events & 0x1000_0000 != 0 && op == 1 && !target_is_set ==> (exclusive_misused(
            op,
            events,
            target_is_set,
        ) <==> events & !0xB000_001D != 0),
{
}

/// A wait with a mask takes its own registers: the set by the first, room for
/// as many events as the third asks at the second, its time by the fourth, and
/// its mask by the fifth.
pub proof fn law_a_wait_takes_its_own_registers(
    space: AddressSpace,
    table: FdTable,
    open: Vec<OpenFile>,
    a: [u64; 6],
    now: u64,
    arch: Arch,
    millis: Result<(Option<u64>, Wait), Errno>,
    epfd: int,
    most: int,
)
    requires
        call_ensures(sys_epoll_pwait, (&space, &table, &open, &a, now, arch), millis),
        (a@[0] - epfd) % 0x1_0000_0000 == 0,
        -0x8000_0000 <= epfd < 0x8000_0000,
        (a@[2] - most) % 0x1_0000_0000 == 0,
        -0x8000_0000 <= most < 0x8000_0000,
    ensures
        ({
            let nanos = spec_pwait2(space, table, open@, a@, now, arch);
            &&& nanos matches Ok((mask, wait)) ==> {
                &&& wait.limit == most
                &&& most > 0
                &&& table@.dom().contains(epfd) && wait.set == table@[epfd].file
                &&& a@[1] + most * 12 <= space.user_end
                &&& mask is None <==> a@[4] == 0
                &&& wait.deadline is None <==> a@[3] == 0
            }
            &&& millis matches Ok((mask, wait)) ==> {
                &&& wait.limit == most
                &&& most > 0
                &&& table@.dom().contains(epfd) && wait.set == table@[epfd].file
                &&& a@[1] + most * 12 <= space.user_end
                &&& mask is None <==> a@[4] == 0
                &&& wait.deadline is None <==> a@[3] % 0x1_0000_0000 >= 0x8000_0000
            }
        }),
{
    assert(spec_int(a@[0] as int) == epfd);
    assert(spec_int(a@[2] as int) == most);
    let size = spec_event_bytes(arch) as int;
    if most > 0 {
        assert(most * 12 <= most * size) by (nonlinear_arith)
            requires
                most > 0,
                size >= 12,
        ;
    }
}

} // verus!
