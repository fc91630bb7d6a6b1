//! Processes making processes, and waiting for them: `clone`, `clone3`,
//! `fork`, `vfork`, `wait4`, `waitid`, and the process groups and sessions job
//! control is built on.
//!
//! A child is a new process with a copy of its parent's address space, or,
//! with `CLONE_THREAD`, a thread of the caller's own process. What lies
//! between the two is refused with `ENOSYS`, and there are no namespaces, so a
//! request for one is `EINVAL`.
//!
//! Making the child is the kernel's other half; what is decided here is
//! whether it may be made, as what, and what the caller is told for each way
//! the making can end.

use vstd::prelude::*;

use crate::abi::{bits_32, Arch};
use crate::bytes::{le_bytes, le_decode, le_encode, le_value};
use crate::errno::Errno;
use crate::fd::{file, named, spec_file, FdTable, OpenFile};
use crate::uaccess::{AddressSpace, Memory};

verus! {

pub const PAGE_SIZE: u64 = 4096;

/// The signal a parent is told of a child's change with.
pub const SIGCHLD: u32 = 17;

/// The signal that continues a stopped process.
pub const SIGCONT: u32 = 18;

/// The low byte of `clone`'s flags: the signal the parent is told with.
pub const CSIGNAL: u64 = 0xFF;

/// Every flag the legacy `clone` has room for; `clone3` alone has more.
pub const CLONE_LEGACY_FLAGS: u64 = 0xFFFF_FFFF;

pub const CLONE_PIDFD: u64 = 0x0000_1000;

pub const CLONE_PARENT: u64 = 0x0000_8000;

pub const CLONE_DETACHED: u64 = 0x0040_0000;

pub const CLONE_CLEAR_SIGHAND: u64 = 0x1_0000_0000;

pub const CLONE_INTO_CGROUP: u64 = 0x2_0000_0000;

/// The size of the first published `struct clone_args`.
pub const CLONE_ARGS_SIZE_VER0: u64 = 64;

/// The size of the latest `struct clone_args` whose fields are known.
pub const CLONE_ARGS_KNOWN: usize = 88;

/// The most levels of pid namespace `set_tid` may name.
pub const MAX_PID_NS_LEVEL: u64 = 32;

/// The highest signal number.
pub const NSIG: u64 = 64;

pub const CLONE_VM: u64 = 0x0000_0100;

pub const CLONE_FS: u64 = 0x0000_0200;

pub const CLONE_FILES: u64 = 0x0000_0400;

pub const CLONE_SIGHAND: u64 = 0x0000_0800;

pub const CLONE_VFORK: u64 = 0x0000_4000;

pub const CLONE_THREAD: u64 = 0x0001_0000;

pub const CLONE_SETTLS: u64 = 0x0008_0000;

pub const CLONE_PARENT_SETTID: u64 = 0x0010_0000;

pub const CLONE_CHILD_CLEARTID: u64 = 0x0020_0000;

pub const CLONE_CHILD_SETTID: u64 = 0x0100_0000;

/// Every namespace a child could be asked to be given: mount, cgroup, UTS,
/// IPC, user, pid and network.
pub const CLONE_NAMESPACES: u64 = 0x7E02_0000;

/// What a new process or thread is asked for, however the call spelled it.
#[derive(Clone, Copy, Debug, PartialEq, Eq)]
pub struct CloneRequest {
    /// The `CLONE_*` flags, with the exit signal in the low byte.
    pub flags: u64,
    /// The child's stack pointer, or zero to keep the parent's.
    pub stack: u64,
    /// Where `CLONE_PARENT_SETTID` writes the child's id.
    pub parent_tid: u64,
    /// Where `CLONE_CHILD_SETTID` writes it and `CLONE_CHILD_CLEARTID` clears
    /// it.
    pub child_tid: u64,
    /// The thread pointer `CLONE_SETTLS` gives the child.
    pub tls: u64,
    /// The descriptor of the cgroup directory the child starts in.
    pub cgroup: Option<i32>,
}

/// The bytes of `struct clone_args` as this kernel knows it, those past `size`
/// zero.
pub open spec fn spec_args(m: Memory, at: int, size: int) -> Seq<u8> {
    Seq::new(
        CLONE_ARGS_KNOWN as nat,
        |i: int|
            if i < size {
                m.bytes[at + i]
            } else {
                0u8
            },
    )
}

/// The field numbered `index`.
pub open spec fn spec_arg(args: Seq<u8>, index: int) -> u64 {
    le_value(args.subrange(8 * index, 8 * index + 8)) as u64
}

/// Why `size` bytes of arguments at `at` cannot be read as `clone3`'s, if they
/// cannot: too small for the first version, more than a page, unreadable, or a
/// byte past what is known that is not zero.
pub open spec fn args_refused(m: Memory, at: int, size: int) -> Option<Errno> {
    let known = if size < CLONE_ARGS_KNOWN {
        size
    } else {
        CLONE_ARGS_KNOWN as int
    };
    let extra = size - known;
    if size > PAGE_SIZE {
        Some(Errno::E2BIG)
    } else if size < CLONE_ARGS_SIZE_VER0 {
        Some(Errno::EINVAL)
    } else if !m.can_read(at, known) || !m.can_read(at + known, extra) {
        Some(Errno::EFAULT)
    } else if exists|i: int| known <= i < size && #[trigger] m.bytes[at + i] != 0 {
        Some(Errno::E2BIG)
    } else {
        None
    }
}

/// The stack's top, from its lowest address and its size.
pub open spec fn spec_stack_top(stack: u64, size: u64, user_end: u64) -> Result<u64, Errno> {
    if stack == 0 && size == 0 {
        Ok(0)
    } else if stack == 0 || size == 0 || stack + size > u64::MAX || stack >= user_end || stack
        + size - 1 >= user_end {
        Err(Errno::EINVAL)
    } else {
        Ok((stack + size) as u64)
    }
}

/// What `size` bytes of `struct clone_args` at `at` ask for.
pub open spec fn spec_clone3_request(
    m: Memory,
    at: int,
    size: int,
    user_end: u64,
) -> Result<CloneRequest, Errno> {
    let args = spec_args(m, at, size);
    let flags = spec_arg(args, 0);
    let child_tid = spec_arg(args, 2);
    let parent_tid = spec_arg(args, 3);
    let exit_signal = spec_arg(args, 4);
    let stack = spec_arg(args, 5);
    let stack_size = spec_arg(args, 6);
    let tls = spec_arg(args, 7);
    let set_tid = spec_arg(args, 8);
    let set_tid_size = spec_arg(args, 9);
    let cgroup = spec_arg(args, 10);
    let into_cgroup = flags & CLONE_INTO_CGROUP != 0;
    match args_refused(m, at, size) {
        Some(e) => Err(e),
        None => if set_tid_size > MAX_PID_NS_LEVEL || (set_tid == 0) != (set_tid_size == 0) {
            Err(Errno::EINVAL)
        } else if exit_signal > NSIG {
            Err(Errno::EINVAL)
        } else if flags & !(CLONE_LEGACY_FLAGS | CLONE_CLEAR_SIGHAND | CLONE_INTO_CGROUP) != 0
            || flags & (CLONE_DETACHED | CSIGNAL) != 0 || flags & (CLONE_SIGHAND
            | CLONE_CLEAR_SIGHAND) == CLONE_SIGHAND | CLONE_CLEAR_SIGHAND || (flags & (CLONE_THREAD
            | CLONE_PARENT) != 0 && exit_signal != 0) {
            Err(Errno::EINVAL)
        } else {
            match spec_stack_top(stack, stack_size, user_end) {
                Err(e) => Err(e),
                Ok(top) => if into_cgroup && (size < CLONE_ARGS_KNOWN || cgroup > i32::MAX) {
                    Err(Errno::EINVAL)
                } else if set_tid != 0 {
                    Err(Errno::ENOSYS)
                } else {
                    Ok(
                        CloneRequest {
                            flags: flags | exit_signal,
                            stack: top,
                            parent_tid,
                            child_tid,
                            tls,
                            cgroup: if into_cgroup {
                                Some(cgroup as i32)
                            } else {
                                None
                            },
                        },
                    )
                },
            }
        },
    }
}

/// Whether any byte is not zero.
fn any_set(bytes: &Vec<u8>) -> (yes: bool)
    ensures
        yes == exists|j: int| 0 <= j < bytes@.len() && bytes@[j] != 0,
{
    let mut i: usize = 0;
    while i < bytes.len()
        invariant
            i <= bytes@.len(),
            forall|j: int| 0 <= j < i ==> bytes@[j] == 0,
        decreases bytes@.len() - i,
    {
        if bytes[i] != 0 {
            return true;
        }
        i = i + 1;
    }
    false
}

/// The known part of `clone3`'s arguments, zero past what the caller passed.
fn read_args(space: &AddressSpace, at: u64, size: u64) -> (args: Result<Vec<u8>, Errno>)
    requires
        space.wf(),
    ensures
        match args {
            Ok(bytes) => args_refused(space@, at as int, size as int) is None && bytes@
                == spec_args(space@, at as int, size as int),
            Err(e) => args_refused(space@, at as int, size as int) == Some(e),
        },
{
    if size > PAGE_SIZE {
        return Err(Errno::E2BIG);
    }
    if size < CLONE_ARGS_SIZE_VER0 {
        return Err(Errno::EINVAL);
    }
    let size: usize = size as usize;
    let known: usize = if size < CLONE_ARGS_KNOWN {
        size
    } else {
        CLONE_ARGS_KNOWN
    };
    let mut bytes = space.copy_from_user(at, known)?;
    if size > CLONE_ARGS_KNOWN {
        let extra: usize = size - CLONE_ARGS_KNOWN;
        if at > u64::MAX - CLONE_ARGS_KNOWN as u64 {
            proof {
                space.lemma_unmapped_above(at + known);
                assert(!space@.bytes.dom().contains(at + known));
            }
            return Err(Errno::EFAULT);
        }
        let rest = space.copy_from_user(at + CLONE_ARGS_KNOWN as u64, extra)?;
        if any_set(&rest) {
            proof {
                let j = choose|j: int| 0 <= j < rest@.len() && rest@[j] != 0;
                assert(space@.bytes[at + (known + j)] != 0) by {
                    assert(rest@[j] == space@.bytes[(at + known) + j]);
                }
            }
            return Err(Errno::E2BIG);
        }
        proof {
            assert forall|j: int| known <= j < size implies #[trigger] space@.bytes[at + j] == 0 by {
                assert(rest@[j - known] == space@.bytes[(at + known) + (j - known)]);
            }
        }
    }
    while bytes.len() < CLONE_ARGS_KNOWN
        invariant
            known <= bytes@.len() <= CLONE_ARGS_KNOWN,
            known == if size < CLONE_ARGS_KNOWN {
                size
            } else {
                CLONE_ARGS_KNOWN
            },
            forall|i: int|
                0 <= i < bytes@.len() ==> #[trigger] bytes@[i] == (if i < known {
                    space@.bytes[at + i]
                } else {
                    0u8
                }),
        decreases CLONE_ARGS_KNOWN - bytes@.len(),
    {
        bytes.push(0);
    }
    proof {
        assert(bytes@ =~= spec_args(space@, at as int, size as int));
    }
    Ok(bytes)
}

fn arg_at(args: &Vec<u8>, index: usize) -> (value: u64)
    requires
        args@.len() == CLONE_ARGS_KNOWN,
        index < 11,
    ensures
        value == spec_arg(args@, index as int),
{
    let field = vstd::slice::slice_subrange(args.as_slice(), 8 * index, 8 * index + 8);
    le_decode(field)
}

/// Read and check `clone3`'s `struct clone_args`, `size` bytes of it at `at`.
///
/// The structure grows at its end, and `size` says which version the caller
/// was built against: more than this kernel knows is fine as long as every
/// byte it does not know is zero.
pub fn clone3_request(space: &AddressSpace, at: u64, size: u64) -> (request: Result<
    CloneRequest,
    Errno,
>)
    requires
        space.wf(),
    ensures
        request == spec_clone3_request(space@, at as int, size as int, space.user_end),
{
    let args = read_args(space, at, size)?;
    let flags: u64 = arg_at(&args, 0);
    let child_tid: u64 = arg_at(&args, 2);
    let parent_tid: u64 = arg_at(&args, 3);
    let exit_signal: u64 = arg_at(&args, 4);
    let stack: u64 = arg_at(&args, 5);
    let stack_size: u64 = arg_at(&args, 6);
    let tls: u64 = arg_at(&args, 7);
    let set_tid: u64 = arg_at(&args, 8);
    let set_tid_size: u64 = arg_at(&args, 9);
    let cgroup: u64 = arg_at(&args, 10);
    if set_tid_size > MAX_PID_NS_LEVEL || (set_tid == 0 && set_tid_size > 0) || (set_tid != 0
        && set_tid_size == 0) {
        return Err(Errno::EINVAL);
    }
    if exit_signal > NSIG {
        return Err(Errno::EINVAL);
    }
    if flags & !(CLONE_LEGACY_FLAGS | CLONE_CLEAR_SIGHAND | CLONE_INTO_CGROUP) != 0 || flags & (
    CLONE_DETACHED | CSIGNAL) != 0 || flags & (CLONE_SIGHAND | CLONE_CLEAR_SIGHAND) == CLONE_SIGHAND
        | CLONE_CLEAR_SIGHAND || (flags & (CLONE_THREAD | CLONE_PARENT) != 0 && exit_signal != 0) {
        return Err(Errno::EINVAL);
    }
    let top: u64 = if stack == 0 && stack_size == 0 {
        0
    } else if stack == 0 || stack_size == 0 {
        return Err(Errno::EINVAL);
    } else {
        match stack.checked_add(stack_size) {
            None => return Err(Errno::EINVAL),
            Some(top) => {
                if stack >= space.user_end || top - 1 >= space.user_end {
                    return Err(Errno::EINVAL);
                }
                top
            },
        }
    };
    let into: Option<i32> = if flags & CLONE_INTO_CGROUP == 0 {
        None
    } else if size < CLONE_ARGS_KNOWN as u64 || cgroup > i32::MAX as u64 {
        return Err(Errno::EINVAL);
    } else {
        Some(cgroup as i32)
    };
    if set_tid != 0 {
        return Err(Errno::ENOSYS);
    }
    Ok(
        CloneRequest {
            flags: flags | exit_signal,
            stack: top,
            parent_tid,
            child_tid,
            tls,
            cgroup: into,
        },
    )
}

/// Which of the calls that make a process was made.
#[derive(Clone, Copy, Debug, PartialEq, Eq, Structural)]
pub enum CloneCall {
    Fork,
    Vfork,
    Clone,
    Clone3,
}

/// What the call's registers ask for, before what every machine refuses.
///
/// `clone` has the thread pointer before the child's id pointer on both Arm
/// machines, and the other way round on x86-64.
pub open spec fn spec_request(
    m: Memory,
    call: CloneCall,
    a: Seq<u64>,
    arch: Arch,
    user_end: u64,
) -> Result<CloneRequest, Errno> {
    let plain = CloneRequest {
        flags: 0,
        stack: 0,
        parent_tid: 0,
        child_tid: 0,
        tls: 0,
        cgroup: None,
    };
    match call {
        CloneCall::Fork => Ok(CloneRequest { flags: SIGCHLD as u64, ..plain }),
        CloneCall::Vfork => Ok(
            CloneRequest { flags: CLONE_VM | CLONE_VFORK | (SIGCHLD as u64), ..plain },
        ),
        CloneCall::Clone3 => spec_clone3_request(m, a[0] as int, a[1] as int, user_end),
        CloneCall::Clone => Ok(
            CloneRequest {
                flags: a[0] & CLONE_LEGACY_FLAGS,
                stack: a[1],
                parent_tid: a[2],
                child_tid: if arch == Arch::X86_64 {
                    a[3]
                } else {
                    a[4]
                },
                tls: if arch == Arch::X86_64 {
                    a[4]
                } else {
                    a[3]
                },
                cgroup: None,
            },
        ),
    }
}

/// Whether the byte below a stack's top is one a program may use.
pub open spec fn stack_usable(stack: u64, user_end: u64) -> bool {
    stack == 0 || stack - 1 < user_end
}

/// What the call asks for, or why it is refused before anything is made: a
/// thread pointer x86-64 could not load is `EPERM`, a stack outside the user
/// half `EINVAL`.
pub open spec fn spec_sys_clone(
    m: Memory,
    call: CloneCall,
    a: Seq<u64>,
    arch: Arch,
    user_end: u64,
) -> Result<CloneRequest, Errno> {
    match spec_request(m, call, a, arch, user_end) {
        Err(e) => Err(e),
        Ok(request) => if request.flags & CLONE_SETTLS != 0 && arch == Arch::X86_64 && request.tls
            != 0 && request.tls >= user_end {
            Err(Errno::EPERM)
        } else if !stack_usable(request.stack, user_end) {
            Err(Errno::EINVAL)
        } else {
            Ok(request)
        },
    }
}

/// `clone`, `clone3`, `fork` and `vfork`: what is asked for. [`clone_with`]
/// says what becomes of it.
pub fn sys_clone(space: &AddressSpace, call: CloneCall, a: &[u64; 6], arch: Arch) -> (request:
    Result<CloneRequest, Errno>)
    requires
        space.wf(),
    ensures
        request == spec_sys_clone(space@, call, a@, arch, space.user_end),
{
    let x86 = match arch {
        Arch::X86_64 => true,
        _ => false,
    };
    let plain = CloneRequest {
        flags: 0,
        stack: 0,
        parent_tid: 0,
        child_tid: 0,
        tls: 0,
        cgroup: None,
    };
    let request = match call {
        CloneCall::Fork => CloneRequest { flags: SIGCHLD as u64, ..plain },
        CloneCall::Vfork => CloneRequest {
            flags: CLONE_VM | CLONE_VFORK | (SIGCHLD as u64),
            ..plain
        },
        CloneCall::Clone3 => clone3_request(space, a[0], a[1])?,
        CloneCall::Clone => CloneRequest {
            flags: a[0] & CLONE_LEGACY_FLAGS,
            stack: a[1],
            parent_tid: a[2],
            child_tid: if x86 {
                a[3]
            } else {
                a[4]
            },
            tls: if x86 {
                a[4]
            } else {
                a[3]
            },
            cgroup: None,
        },
    };
    if request.flags & CLONE_SETTLS != 0 && x86 && request.tls != 0 && request.tls
        >= space.user_end {
        return Err(Errno::EPERM);
    }
    if request.stack != 0 && request.stack - 1 >= space.user_end {
        return Err(Errno::EINVAL);
    }
    Ok(request)
}

/// What a new process or thread is given.
#[derive(Clone, Copy, Debug, PartialEq, Eq)]
pub struct Plan {
    /// A thread of the caller's process rather than a process.
    pub thread: bool,
    /// Share the descriptor table.
    pub share_files: bool,
    /// Share the working directory and root.
    pub share_fs: bool,
    /// The signal its parent is told of its end with.
    pub exit_signal: u32,
    /// Reset its signal handlers.
    pub clear_handlers: bool,
    /// Where its id is written in the parent's memory.
    pub parent_tid: Option<u64>,
    /// Where its id is written in its own memory.
    pub child_tid: Option<u64>,
    /// Where its id is cleared when it ends.
    pub clear_tid: Option<u64>,
    /// Its thread pointer.
    pub tls: Option<u64>,
    /// Its stack pointer.
    pub stack: Option<u64>,
    /// The caller sleeps until it calls `execve` or ends.
    pub vfork: bool,
    /// It starts in a cgroup of its own choosing.
    pub into: bool,
}

/// Which cgroup a child asked into one would start in, as the descriptor it
/// named turned out.
#[derive(Clone, Copy, Debug, PartialEq, Eq)]
pub enum Target {
    /// The one its parent is in.
    Same,
    /// Another.
    Other,
    /// None: this is why.
    Refused(Errno),
}

/// The cgroup `CLONE_INTO_CGROUP` asks a child to start in, from the descriptor
/// it names and the cgroup filesystem's answer for that: whether it is the
/// caller's own, or why the child may not start there.
///
/// `EBADF` for a descriptor that names nothing, whatever the answer.
pub fn cgroup_target(
    table: &FdTable,
    open: &Vec<OpenFile>,
    descriptor: i32,
    answer: Result<bool, Errno>,
) -> (target: Target)
    requires
        named(*table, open@.len()),
    ensures
        target == match spec_file(*table, open@, descriptor as int) {
            Err(_) => Target::Refused(Errno::EBADF),
            Ok(_) => match answer {
                Ok(true) => Target::Same,
                Ok(false) => Target::Other,
                Err(e) => Target::Refused(e),
            },
        },
{
    if file(table, open, descriptor).is_err() {
        return Target::Refused(Errno::EBADF);
    }
    match answer {
        Ok(true) => Target::Same,
        Ok(false) => Target::Other,
        Err(e) => Target::Refused(e),
    }
}

/// What a thread may not be, or a process may not be, and with which error.
pub open spec fn spec_clone_refused(request: CloneRequest, target: Target) -> Option<Errno> {
    let flags = request.flags;
    let thread = flags & CLONE_THREAD != 0;
    if flags & CLONE_NAMESPACES != 0 {
        Some(Errno::EINVAL)
    } else if thread && flags & CLONE_SIGHAND == 0 {
        Some(Errno::EINVAL)
    } else if flags & CLONE_SIGHAND != 0 && flags & CLONE_VM == 0 {
        Some(Errno::EINVAL)
    } else if request.cgroup is Some && target is Refused {
        Some(target->Refused_0)
    } else if request.cgroup is Some && thread && target is Other {
        Some(Errno::EOPNOTSUPP)
    } else if thread {
        if flags & (CLONE_FILES | CLONE_FS) != CLONE_FILES | CLONE_FS || flags & (CLONE_VFORK
            | CLONE_PIDFD) != 0 {
            Some(Errno::ENOSYS)
        } else {
            None
        }
    } else if flags & CLONE_SIGHAND != 0 || (flags & CLONE_VM != 0 && flags & CLONE_VFORK == 0)
        || flags & CLONE_PIDFD != 0 {
        Some(Errno::ENOSYS)
    } else {
        None
    }
}

/// `value` if `flag` is among `flags`.
pub open spec fn if_set(flags: u64, flag: u64, value: u64) -> Option<u64> {
    if flags & flag != 0 {
        Some(value)
    } else {
        None
    }
}

fn given(flags: u64, flag: u64, value: u64) -> (out: Option<u64>)
    ensures
        out == if_set(flags, flag, value),
{
    if flags & flag != 0 {
        Some(value)
    } else {
        None
    }
}

/// What a request that is not refused is given.
pub open spec fn spec_plan(request: CloneRequest) -> Plan {
    let flags = request.flags;
    Plan {
        thread: flags & CLONE_THREAD != 0,
        share_files: flags & CLONE_FILES != 0,
        share_fs: flags & CLONE_FS != 0,
        exit_signal: if flags & CLONE_THREAD != 0 {
            0
        } else {
            (flags & CSIGNAL) as u32
        },
        clear_handlers: flags & CLONE_THREAD == 0 && flags & CLONE_CLEAR_SIGHAND != 0,
        parent_tid: if_set(flags, CLONE_PARENT_SETTID, request.parent_tid),
        child_tid: if_set(flags, CLONE_CHILD_SETTID, request.child_tid),
        clear_tid: if_set(flags, CLONE_CHILD_CLEARTID, request.child_tid),
        tls: if_set(flags, CLONE_SETTLS, request.tls),
        stack: if request.stack != 0 {
            Some(request.stack)
        } else {
            None
        },
        vfork: flags & CLONE_THREAD == 0 && flags & CLONE_VFORK != 0,
        into: request.cgroup is Some,
    }
}

/// Where a thread differs: what [`clone_with`] checks of one.
///
/// `ENOSYS` for a thread with a descriptor table or directories of its own, or
/// with `CLONE_VFORK` or `CLONE_PIDFD`.
pub fn clone_thread(request: &CloneRequest) -> (refused: Option<Errno>)
    ensures
        refused == if request.flags & (CLONE_FILES | CLONE_FS) != CLONE_FILES | CLONE_FS
            || request.flags & (CLONE_VFORK | CLONE_PIDFD) != 0 {
            Some(Errno::ENOSYS)
        } else {
            None
        },
{
    if request.flags & (CLONE_FILES | CLONE_FS) != CLONE_FILES | CLONE_FS || request.flags & (
    CLONE_VFORK | CLONE_PIDFD) != 0 {
        return Some(Errno::ENOSYS);
    }
    None
}

/// What the process or thread `request` asks for is to be, or why it is
/// refused. `target` is what became of the cgroup it names, when it names one.
///
/// `EINVAL` for a namespace, for a thread without its process's handlers and
/// for shared handlers without shared memory; the cgroup's own refusal, and
/// `EOPNOTSUPP` for a thread asked into another cgroup; `ENOSYS` for what lies
/// between a process and a thread, and for a pidfd.
pub fn clone_with(request: &CloneRequest, target: Target) -> (plan: Result<Plan, Errno>)
    ensures
        plan == match spec_clone_refused(*request, target) {
            Some(e) => Err(e),
            None => Ok(spec_plan(*request)),
        },
{
    let flags: u64 = request.flags;
    let thread = flags & CLONE_THREAD != 0;
    if flags & CLONE_NAMESPACES != 0 {
        return Err(Errno::EINVAL);
    }
    if thread && flags & CLONE_SIGHAND == 0 {
        return Err(Errno::EINVAL);
    }
    if flags & CLONE_SIGHAND != 0 && flags & CLONE_VM == 0 {
        return Err(Errno::EINVAL);
    }
    if request.cgroup.is_some() {
        match target {
            Target::Refused(e) => return Err(e),
            Target::Other => {
                if thread {
                    return Err(Errno::EOPNOTSUPP);
                }
            },
            Target::Same => {},
        }
    }
    if thread {
        if let Some(e) = clone_thread(request) {
            return Err(e);
        }
    } else {
        if flags & CLONE_SIGHAND != 0 {
            return Err(Errno::ENOSYS);
        }
        if flags & CLONE_VM != 0 && flags & CLONE_VFORK == 0 {
            return Err(Errno::ENOSYS);
        }
        if flags & CLONE_PIDFD != 0 {
            return Err(Errno::ENOSYS);
        }
    }
    Ok(
        Plan {
            thread,
            share_files: flags & CLONE_FILES != 0,
            share_fs: flags & CLONE_FS != 0,
            exit_signal: if thread {
                0
            } else {
                (flags & CSIGNAL) as u32
            },
            clear_handlers: !thread && flags & CLONE_CLEAR_SIGHAND != 0,
            parent_tid: given(flags, CLONE_PARENT_SETTID, request.parent_tid),
            child_tid: given(flags, CLONE_CHILD_SETTID, request.child_tid),
            clear_tid: given(flags, CLONE_CHILD_CLEARTID, request.child_tid),
            tls: given(flags, CLONE_SETTLS, request.tls),
            stack: if request.stack != 0 {
                Some(request.stack)
            } else {
                None
            },
            vfork: !thread && flags & CLONE_VFORK != 0,
            into: request.cgroup.is_some(),
        },
    )
}

/// Whose state a new thread starts from.
#[derive(Clone, Copy, Debug, PartialEq, Eq, Structural)]
pub enum Model {
    /// The calling thread's: its blocked mask and its alternate stack.
    Caller,
    /// The calling thread's blocked mask, and nothing else of it.
    Mask,
    /// Nobody's: the first thread of a process that no thread forked.
    Nobody,
}

/// Whose state the thread a `plan` makes starts from; `belongs` is whether the
/// calling thread is one of the caller's process.
pub open spec fn spec_model(plan: Plan, belongs: bool) -> Result<Model, Errno> {
    if plan.thread {
        if belongs {
            Ok(Model::Mask)
        } else {
            Err(Errno::ESRCH)
        }
    } else if belongs {
        Ok(Model::Caller)
    } else {
        Ok(Model::Nobody)
    }
}

/// Whose state the thread a `plan` makes starts from. Only a new thread needs
/// a caller that is a thread of the process: `ESRCH` without one. A process
/// goes on, with a first thread of its own.
pub fn model(plan: &Plan, belongs: bool) -> (model: Result<Model, Errno>)
    ensures
        model == spec_model(*plan, belongs),
{
    match (plan.thread, belongs) {
        (true, true) => Ok(Model::Mask),
        (true, false) => Err(Errno::ESRCH),
        (false, true) => Ok(Model::Caller),
        (false, false) => Ok(Model::Nobody),
    }
}

/// How the making of a child went.
#[derive(Clone, Copy, Debug, PartialEq, Eq)]
pub enum Birth {
    /// Its memory could not be copied.
    NoMemory,
    /// No id was free.
    NoId,
    /// Made, and numbered.
    Made {
        /// Its id.
        id: u32,
        /// The job it is in is being ended.
        dying: bool,
        /// The cgroup it was asked into is gone.
        removed: bool,
        /// It could be started.
        started: bool,
    },
}

/// What the caller is told, and what becomes of the child.
#[derive(Clone, Copy, Debug, PartialEq, Eq)]
pub struct Outcome {
    /// The caller's answer.
    pub answer: Result<usize, Errno>,
    /// End the child before it runs.
    pub kill: bool,
    /// Take the child back out of its parent's children.
    pub disown: bool,
    /// The child came as far as having its id written where that was asked.
    pub ids: bool,
    /// The caller sleeps until the child runs a program or ends.
    pub waits: bool,
}

/// A refusal before the child's id was written anywhere.
pub open spec fn unborn(e: Errno, kill: bool) -> Outcome {
    Outcome { answer: Err(e), kill, disown: false, ids: false, waits: false }
}

/// What the caller of a `plan` is told for each way the making can go.
pub open spec fn spec_outcome(plan: Plan, birth: Birth) -> Outcome {
    match birth {
        Birth::NoMemory => unborn(Errno::ENOMEM, false),
        Birth::NoId => unborn(Errno::EAGAIN, false),
        Birth::Made { id, dying, removed, started } => if !plan.thread && dying {
            unborn(Errno::EAGAIN, true)
        } else if !plan.thread && plan.into && removed {
            unborn(Errno::ENODEV, true)
        } else if !started {
            Outcome {
                answer: Err(Errno::EAGAIN),
                kill: false,
                disown: !plan.thread,
                ids: true,
                waits: false,
            }
        } else {
            Outcome {
                answer: Ok(id as usize),
                kill: false,
                disown: false,
                ids: true,
                waits: plan.vfork,
            }
        },
    }
}

fn refuse_birth(e: Errno, kill: bool) -> (out: Outcome)
    ensures
        out == unborn(e, kill),
{
    Outcome { answer: Err(e), kill, disown: false, ids: false, waits: false }
}

/// What the caller of a `plan` is told for each way the making can go: a
/// child of a job being ended is ended before it runs, and so is one asked
/// into a cgroup that was removed meanwhile.
pub fn outcome(plan: &Plan, birth: Birth) -> (out: Outcome)
    ensures
        out == spec_outcome(*plan, birth),
{
    match birth {
        Birth::NoMemory => refuse_birth(Errno::ENOMEM, false),
        Birth::NoId => refuse_birth(Errno::EAGAIN, false),
        Birth::Made { id, dying, removed, started } => {
            if !plan.thread && dying {
                return refuse_birth(Errno::EAGAIN, true);
            }
            if !plan.thread && plan.into && removed {
                return refuse_birth(Errno::ENODEV, true);
            }
            Outcome {
                answer: if started {
                    Ok(id as usize)
                } else {
                    Err(Errno::EAGAIN)
                },
                kill: false,
                disown: !started && !plan.thread,
                ids: true,
                waits: started && plan.vfork,
            }
        },
    }
}

/// The memory with `id` written at `at`, if there is an `at` and it can be.
pub open spec fn with_id(m: Memory, at: Option<u64>, id: u32) -> Memory {
    match at {
        Some(place) if m.can_write(place as int, 4) => m.store(
            place as int,
            le_bytes(id as nat, 4),
        ),
        _ => m,
    }
}

/// Write a new child's id where its parent asked for it. A failure to write it
/// is ignored: the child exists by now.
pub fn write_id(space: &mut AddressSpace, at: Option<u64>, id: u32)
    requires
        old(space).wf(),
    ensures
        final(space).wf(),
        final(space).same_layout(*old(space)),
        final(space)@ == with_id(old(space)@, at, id),
{
    if let Some(place) = at {
        let _ = space.put_u32(place, id);
    }
}

// ---------------------------------------------------------------------------
// Waiting
// ---------------------------------------------------------------------------

/// Return at once if nothing has changed.
pub const WNOHANG: u32 = 1;

/// Report stopped children too.
pub const WUNTRACED: u32 = 2;

/// Report children that ended.
pub const WEXITED: u32 = 4;

/// Report continued children too.
pub const WCONTINUED: u32 = 8;

/// Leave the child waitable.
pub const WNOWAIT: u32 = 0x0100_0000;

/// The thread-selection bits, accepted and not acted on: a thread is never a
/// child.
pub const WAIT_THREAD_BITS: u32 = 0xE000_0000;

/// `waitid`: any child.
pub const P_ALL: u32 = 0;

/// `waitid`: the child with this pid.
pub const P_PID: u32 = 1;

/// `waitid`: any child in this process group.
pub const P_PGID: u32 = 2;

/// `si_code` for a child that exited.
pub const CLD_EXITED: i32 = 1;

/// `si_code` for a child a signal ended.
pub const CLD_KILLED: i32 = 2;

/// `si_code` for a child that stopped.
pub const CLD_STOPPED: i32 = 5;

/// `si_code` for a child that continued.
pub const CLD_CONTINUED: i32 = 6;

/// Bytes in `siginfo_t` on every machine.
pub const SIGINFO_BYTES: usize = 128;

/// How a process ended.
#[derive(Clone, Copy, Debug, PartialEq, Eq, Structural)]
pub struct End {
    /// The status word `wait4` reports.
    pub wait_status: i32,
    /// The status it exited with.
    pub exit_status: i32,
    /// The signal that ended it, if one did.
    pub signal: Option<u32>,
}

/// A stop or a continue nobody has been told of yet.
#[derive(Clone, Copy, Debug, PartialEq, Eq, Structural)]
pub enum Pending {
    /// None.
    Nothing,
    /// Stopped, for this signal.
    Stopped(u32),
    /// Continued.
    Continued,
}

/// A child, as its parent's waits see it.
#[derive(Clone, Copy, Debug, PartialEq, Eq)]
pub struct Child {
    /// Its pid.
    pub pid: u32,
    /// Its process group.
    pub pgid: u32,
    /// How it ended, once it has.
    pub end: Option<End>,
    /// What it did that has not been reported.
    pub pending: Pending,
}

/// Which children a wait is for.
#[derive(Clone, Copy, Debug, PartialEq, Eq, Structural)]
pub enum Select {
    /// Any.
    Any,
    /// The one with this pid.
    Pid(u32),
    /// Those in this group.
    Group(u32),
}

impl Select {
    /// Whether the wait is for `child`.
    pub open spec fn takes(self, child: Child) -> bool {
        match self {
            Select::Any => true,
            Select::Pid(pid) => child.pid == pid,
            Select::Group(pgid) => child.pgid == pgid,
        }
    }

    /// Whether the wait is for `child`.
    pub fn accepts(self, child: &Child) -> (yes: bool)
        ensures
            yes == self.takes(*child),
    {
        match self {
            Select::Any => true,
            Select::Pid(pid) => child.pid == pid,
            Select::Group(pgid) => child.pgid == pgid,
        }
    }
}

/// The magnitude of a signed number.
pub open spec fn magnitude(v: int) -> int {
    if v < 0 {
        -v
    } else {
        v
    }
}

/// The magnitude of a signed number.
pub fn unsigned_abs(v: i32) -> (out: u32)
    ensures
        out == magnitude(v as int),
{
    if v < 0 {
        (-(v as i64)) as u32
    } else {
        v as u32
    }
}

/// Which children `wait4`'s `pid` names: any for -1, the caller's own group
/// for zero, a child above it, a group below.
pub open spec fn spec_wait4_selector(own_group: u32, pid: int) -> Select {
    if pid == -1 {
        Select::Any
    } else if pid == 0 {
        Select::Group(own_group)
    } else if pid > 0 {
        Select::Pid(pid as u32)
    } else {
        Select::Group((-pid) as u32)
    }
}

/// Which children a wait is for, decoded from `wait4`'s `pid`.
pub fn wait4_selector(own_group: u32, pid: i32) -> (select: Select)
    ensures
        select == spec_wait4_selector(own_group, pid as int),
{
    if pid == -1 {
        Select::Any
    } else if pid == 0 {
        Select::Group(own_group)
    } else if pid > 0 {
        Select::Pid(pid as u32)
    } else {
        Select::Group(unsigned_abs(pid))
    }
}

/// What a wait found a child to have done.
#[derive(Clone, Copy, Debug, PartialEq, Eq)]
pub enum Change {
    /// Ended.
    Ended(Child),
    /// Stopped, for this signal.
    Stopped(Child, u32),
    /// Continued.
    Continued(Child),
}

impl Change {
    /// The child.
    pub open spec fn spec_child(self) -> Child {
        match self {
            Change::Ended(child) => child,
            Change::Stopped(child, _) => child,
            Change::Continued(child) => child,
        }
    }

    /// The child.
    pub fn child(&self) -> (child: Child)
        ensures
            child == self.spec_child(),
    {
        match self {
            Change::Ended(child) => *child,
            Change::Stopped(child, _) => *child,
            Change::Continued(child) => *child,
        }
    }
}

/// What a wait is looking for.
#[derive(Clone, Copy, Debug, PartialEq, Eq, Structural)]
pub enum Look {
    /// A child, whatever it did.
    Present,
    /// One that ended.
    Ended,
    /// One that stopped, if the first, or continued, if the second.
    Changed(bool, bool),
}

/// Whether `child` is one `select` takes that did what `look` is for.
pub open spec fn seen(child: Child, select: Select, look: Look) -> bool {
    select.takes(child) && match look {
        Look::Present => true,
        Look::Ended => child.end is Some,
        Look::Changed(stops, continues) => (stops && child.pending is Stopped) || (continues
            && child.pending is Continued),
    }
}

/// The first such child from `from` on, in the order they were made.
pub open spec fn first_seen(
    children: Seq<Child>,
    select: Select,
    look: Look,
    from: int,
) -> Option<int>
    decreases children.len() - from,
{
    if from < 0 || from >= children.len() {
        None
    } else if seen(children[from], select, look) {
        Some(from)
    } else {
        first_seen(children, select, look, from + 1)
    }
}

fn find_child(children: &Vec<Child>, select: Select, look: Look) -> (at: Option<usize>)
    ensures
        match at {
            Some(i) => first_seen(children@, select, look, 0) == Some(i as int) && i
                < children@.len() && seen(children@[i as int], select, look),
            None => first_seen(children@, select, look, 0) is None,
        },
{
    let mut i: usize = 0;
    while i < children.len()
        invariant
            i <= children@.len(),
            first_seen(children@, select, look, 0) == first_seen(
                children@,
                select,
                look,
                i as int,
            ),
        decreases children@.len() - i,
    {
        let child = children[i];
        let found = select.accepts(&child) && match look {
            Look::Present => true,
            Look::Ended => child.end.is_some(),
            Look::Changed(stops, continues) => match child.pending {
                Pending::Stopped(_) => stops,
                Pending::Continued => continues,
                Pending::Nothing => false,
            },
        };
        if found {
            return Some(i);
        }
        i = i + 1;
    }
    None
}

/// What a wait comes to.
#[derive(Clone, Copy, Debug, PartialEq, Eq)]
pub enum Waiting {
    /// This happened.
    Found(Change),
    /// Nothing has, and the caller does not wait.
    Nothing,
    /// Nothing has: sleep until a child changes or a signal comes, and ask
    /// again.
    Sleep,
}

/// The change of a child that stopped or continued.
pub open spec fn change_of(child: Child) -> Change {
    match child.pending {
        Pending::Stopped(signal) => Change::Stopped(child, signal),
        _ => Change::Continued(child),
    }
}

/// What a wait comes to: no child to wait for is `ECHILD`; an end comes before
/// a stop or a continue; with nothing to report the caller is told so, or told
/// of its signal, or sleeps.
pub open spec fn spec_wait(
    children: Seq<Child>,
    select: Select,
    options: u32,
    signal_pending: bool,
) -> Result<Waiting, Errno> {
    let ended = first_seen(children, select, Look::Ended, 0);
    let changed = first_seen(
        children,
        select,
        Look::Changed(options & WUNTRACED != 0, options & WCONTINUED != 0),
        0,
    );
    if first_seen(children, select, Look::Present, 0) is None {
        Err(Errno::ECHILD)
    } else if options & WEXITED != 0 && ended is Some {
        Ok(Waiting::Found(Change::Ended(children[ended->0])))
    } else if changed is Some {
        Ok(Waiting::Found(change_of(children[changed->0])))
    } else if options & WNOHANG != 0 {
        Ok(Waiting::Nothing)
    } else if signal_pending {
        Err(Errno::ERESTARTSYS)
    } else {
        Ok(Waiting::Sleep)
    }
}

/// The children once the wait has taken what it found, if `remove` says to.
pub open spec fn spec_waited(
    children: Seq<Child>,
    select: Select,
    options: u32,
    remove: bool,
) -> Seq<Child> {
    let ended = first_seen(children, select, Look::Ended, 0);
    let changed = first_seen(
        children,
        select,
        Look::Changed(options & WUNTRACED != 0, options & WCONTINUED != 0),
        0,
    );
    if !remove {
        children
    } else if options & WEXITED != 0 && ended is Some {
        children.remove(ended->0)
    } else if changed is Some {
        children.update(
            changed->0,
            Child { pending: Pending::Nothing, ..children[changed->0] },
        )
    } else {
        children
    }
}

proof fn lemma_seen_is_present(children: Seq<Child>, select: Select, look: Look, from: int)
    requires
        first_seen(children, select, look, from) is Some,
    ensures
        first_seen(children, select, Look::Present, from) is Some,
    decreases children.len() - from,
{
    if !seen(children[from], select, look) {
        lemma_seen_is_present(children, select, look, from + 1);
    }
}

/// Look for a child `select` takes that has ended (with `WEXITED`), stopped
/// (with `WUNTRACED`) or continued (with `WCONTINUED`), and take what it did,
/// or leave it.
///
/// `ECHILD` with no child `select` takes; `ERESTARTSYS` when a signal the
/// caller does not block is pending and nothing is to be reported, which the
/// way back to the program settles.
pub fn wait_for_child(
    children: &mut Vec<Child>,
    select: Select,
    options: u32,
    remove: bool,
    signal_pending: bool,
) -> (waiting: Result<Waiting, Errno>)
    ensures
        waiting == spec_wait(old(children)@, select, options, signal_pending),
        final(children)@ == spec_waited(old(children)@, select, options, remove),
{
    let exits = options & WEXITED != 0;
    let stops = options & WUNTRACED != 0;
    let continues = options & WCONTINUED != 0;
    if find_child(children, select, Look::Present).is_none() {
        proof {
            if first_seen(children@, select, Look::Ended, 0) is Some {
                lemma_seen_is_present(children@, select, Look::Ended, 0);
            }
            let look = Look::Changed(stops, continues);
            if first_seen(children@, select, look, 0) is Some {
                lemma_seen_is_present(children@, select, look, 0);
            }
        }
        return Err(Errno::ECHILD);
    }
    if exits {
        if let Some(i) = find_child(children, select, Look::Ended) {
            let child = children[i];
            if remove {
                let _ = children.remove(i);
            }
            return Ok(Waiting::Found(Change::Ended(child)));
        }
    }
    if let Some(i) = find_child(children, select, Look::Changed(stops, continues)) {
        let child = children[i];
        if remove {
            children.set(i, Child { pending: Pending::Nothing, ..child });
        }
        return Ok(
            Waiting::Found(
                match child.pending {
                    Pending::Stopped(signal) => Change::Stopped(child, signal),
                    _ => Change::Continued(child),
                },
            ),
        );
    }
    if options & WNOHANG != 0 {
        return Ok(Waiting::Nothing);
    }
    if signal_pending {
        return Err(Errno::ERESTARTSYS);
    }
    Ok(Waiting::Sleep)
}

/// The bits of a signed number.
pub open spec fn spec_bits(v: int) -> nat {
    if v < 0 {
        (v + 0x1_0000_0000) as nat
    } else {
        v as nat
    }
}

/// The status word of a change: an end's as it was recorded, a stop as its
/// signal in the second byte over 0x7f, a continue as 0xffff.
pub open spec fn spec_status_word(change: Change) -> nat {
    match change {
        Change::Ended(child) => match child.end {
            Some(end) => spec_bits(end.wait_status as int),
            None => 0,
        },
        Change::Stopped(_, signal) => (signal as nat % 0x100_0000) * 256 + 0x7f,
        Change::Continued(_) => 0xffff,
    }
}

/// The status word `wait4` reports a change with.
pub fn status_word(change: &Change) -> (word: u32)
    ensures
        word == spec_status_word(*change),
{
    match change {
        Change::Ended(child) => match child.end {
            Some(end) => bits_32(end.wait_status),
            None => 0,
        },
        Change::Stopped(_, signal) => (*signal % 0x100_0000) * 256 + 0x7f,
        Change::Continued(_) => 0xffff,
    }
}

/// What writing `data` at `at` comes to, when a null `at` asks for nothing.
pub open spec fn written_if(m: Memory, at: u64, data: Seq<u8>) -> Result<Memory, Errno> {
    if at == 0 {
        Ok(m)
    } else if m.can_write(at as int, data.len() as int) {
        Ok(m.store(at as int, data))
    } else {
        Err(Errno::EFAULT)
    }
}

fn write_if(space: &mut AddressSpace, at: u64, data: &[u8]) -> (done: Result<(), Errno>)
    requires
        old(space).wf(),
    ensures
        final(space).wf(),
        final(space).same_layout(*old(space)),
        match done {
            Ok(_) => written_if(old(space)@, at, data@) == Ok::<Memory, Errno>(final(space)@),
            Err(e) => written_if(old(space)@, at, data@) == Err::<Memory, Errno>(e)
                && *final(space) == *old(space),
        },
{
    if at == 0 {
        return Ok(());
    }
    space.copy_to_user(at, data)
}

/// An empty `struct rusage`: eighteen native words of zero.
pub open spec fn no_rusage(arch: Arch) -> Seq<u8> {
    Seq::new(18 * arch.spec_word(), |i: int| 0u8)
}

fn zeros(n: usize) -> (bytes: Vec<u8>)
    ensures
        bytes@ == Seq::new(n as nat, |i: int| 0u8),
{
    let mut bytes: Vec<u8> = Vec::new();
    while bytes.len() < n
        invariant
            bytes@.len() <= n,
            forall|i: int| 0 <= i < bytes@.len() ==> bytes@[i] == 0,
        decreases n - bytes@.len(),
    {
        bytes.push(0);
    }
    proof {
        assert(bytes@ =~= Seq::new(n as nat, |i: int| 0u8));
    }
    bytes
}

/// Write an empty `struct rusage` at `at`, unless it is null: nothing accounts
/// a process's resource use.
pub fn zero_rusage(space: &mut AddressSpace, at: u64, arch: Arch) -> (done: Result<(), Errno>)
    requires
        old(space).wf(),
    ensures
        final(space).wf(),
        final(space).same_layout(*old(space)),
        match done {
            Ok(_) => written_if(old(space)@, at, no_rusage(arch)) == Ok::<Memory, Errno>(
                final(space)@,
            ),
            Err(e) => written_if(old(space)@, at, no_rusage(arch)) == Err::<Memory, Errno>(e)
                && *final(space) == *old(space),
        },
{
    let bytes = zeros(18 * arch.word());
    write_if(space, at, bytes.as_slice())
}

/// What a wait answers: a value for the program, or that it must sleep.
#[derive(Clone, Copy, Debug, PartialEq, Eq)]
pub enum Waited {
    /// Return this.
    Answer(usize),
    /// Sleep until a child changes or a signal comes, and call again.
    Sleep,
}

/// What the program's memory and answer are once `change` has been reported
/// through `wait4`'s two pointers: the status word, then the resource use.
pub open spec fn spec_report(m: Memory, wstatus: u64, rusage: u64, change: Change, arch: Arch) -> (
    Memory,
    Result<Waited, Errno>,
) {
    match written_if(m, wstatus, le_bytes(spec_status_word(change), 4)) {
        Err(e) => (m, Err(e)),
        Ok(told) => match written_if(told, rusage, no_rusage(arch)) {
            Err(e) => (told, Err(e)),
            Ok(done) => (done, Ok(Waited::Answer(change.spec_child().pid as usize))),
        },
    }
}

/// `wait4`.
///
/// `EINVAL` for an unknown option; `ECHILD` with no child to wait for;
/// `ERESTARTSYS` if a signal is pending; `EFAULT` for a bad pointer, with the
/// child already taken.
pub fn sys_wait4(
    space: &mut AddressSpace,
    children: &mut Vec<Child>,
    own_group: u32,
    pid: i32,
    wstatus: u64,
    options: u32,
    rusage: u64,
    signal_pending: bool,
    arch: Arch,
) -> (result: Result<Waited, Errno>)
    requires
        old(space).wf(),
    ensures
        final(space).wf(),
        final(space).same_layout(*old(space)),
        if options & !(WNOHANG | WUNTRACED | WCONTINUED | WAIT_THREAD_BITS) != 0 {
            &&& result == Err::<Waited, Errno>(Errno::EINVAL)
            &&& final(children)@ == old(children)@
            &&& final(space)@ == old(space)@
        } else {
            let select = spec_wait4_selector(own_group, pid as int);
            &&& final(children)@ == spec_waited(
                old(children)@,
                select,
                options | WEXITED,
                true,
            )
            &&& match spec_wait(old(children)@, select, options | WEXITED, signal_pending) {
                Err(e) => result == Err::<Waited, Errno>(e) && final(space)@ == old(space)@,
                Ok(Waiting::Sleep) => result == Ok::<Waited, Errno>(Waited::Sleep)
                    && final(space)@ == old(space)@,
                Ok(Waiting::Nothing) => result == Ok::<Waited, Errno>(Waited::Answer(0))
                    && final(space)@ == old(space)@,
                Ok(Waiting::Found(change)) => (final(space)@, result) == spec_report(
                    old(space)@,
                    wstatus,
                    rusage,
                    change,
                    arch,
                ),
            }
        },
{
    if options & !(WNOHANG | WUNTRACED | WCONTINUED | WAIT_THREAD_BITS) != 0 {
        return Err(Errno::EINVAL);
    }
    let select = wait4_selector(own_group, pid);
    let change = match wait_for_child(children, select, options | WEXITED, true, signal_pending)? {
        Waiting::Sleep => return Ok(Waited::Sleep),
        Waiting::Nothing => return Ok(Waited::Answer(0)),
        Waiting::Found(change) => change,
    };
    let word = le_encode(status_word(&change) as u64, 4);
    write_if(space, wstatus, word.as_slice())?;
    zero_rusage(space, rusage, arch)?;
    Ok(Waited::Answer(change.child().pid as usize))
}

/// The code and status `waitid` reports a change with.
pub open spec fn spec_siginfo_of(change: Change) -> (i32, i32) {
    match change {
        Change::Stopped(_, signal) => (
            CLD_STOPPED,
            crate::abi::spec_signed_32(signal as int) as i32,
        ),
        Change::Continued(_) => (CLD_CONTINUED, SIGCONT as i32),
        Change::Ended(child) => match child.end {
            None => (CLD_EXITED, 0),
            Some(end) => match end.signal {
                Some(signal) => (CLD_KILLED, crate::abi::spec_signed_32(signal as int) as i32),
                None => (CLD_EXITED, (spec_bits(end.exit_status as int) % 256) as i32),
            },
        },
    }
}

fn siginfo_of(change: &Change) -> (out: (i32, i32))
    ensures
        out == spec_siginfo_of(*change),
{
    match change {
        Change::Stopped(_, signal) => (CLD_STOPPED, crate::abi::signed_32(*signal)),
        Change::Continued(_) => (CLD_CONTINUED, SIGCONT as i32),
        Change::Ended(child) => match child.end {
            None => (CLD_EXITED, 0),
            Some(end) => match end.signal {
                Some(signal) => (CLD_KILLED, crate::abi::signed_32(signal)),
                None => (CLD_EXITED, (bits_32(end.exit_status) % 256) as i32),
            },
        },
    }
}

/// `bytes` with `value` at `at`, as four bytes.
pub open spec fn with_i32(bytes: Seq<u8>, at: int, value: int) -> Seq<u8> {
    Seq::new(
        bytes.len(),
        |i: int|
            if at <= i < at + 4 {
                le_bytes(spec_bits(value), 4)[i - at]
            } else {
                bytes[i]
            },
    )
}

/// Write `value` into `buffer` at `at`; `EINVAL` if it does not fit.
pub fn put_i32(buffer: &mut Vec<u8>, at: usize, value: i32) -> (done: Result<(), Errno>)
    ensures
        match done {
            Ok(_) => at + 4 <= old(buffer)@.len() && final(buffer)@ == with_i32(
                old(buffer)@,
                at as int,
                value as int,
            ),
            Err(e) => at + 4 > old(buffer)@.len() && e == Errno::EINVAL && final(buffer)@
                == old(buffer)@,
        },
{
    if buffer.len() < 4 || at > buffer.len() - 4 {
        return Err(Errno::EINVAL);
    }
    let word = le_encode(bits_32(value) as u64, 4);
    buffer.set(at, word[0]);
    buffer.set(at + 1, word[1]);
    buffer.set(at + 2, word[2]);
    buffer.set(at + 3, word[3]);
    proof {
        assert(buffer@ =~= with_i32(old(buffer)@, at as int, value as int));
    }
    Ok(())
}

/// The `siginfo_t` that reports a change, or all zero for none. The union
/// starts at the first pointer-aligned offset past three words.
pub open spec fn spec_siginfo(change: Option<Change>, arch: Arch) -> Seq<u8> {
    let blank = Seq::new(SIGINFO_BYTES as nat, |i: int| 0u8);
    let union: int = if arch == Arch::Arm {
        12
    } else {
        16
    };
    match change {
        None => blank,
        Some(change) => {
            let (code, status) = spec_siginfo_of(change);
            with_i32(
                with_i32(
                    with_i32(with_i32(blank, 0, SIGCHLD as int), 8, code as int),
                    union,
                    crate::abi::spec_signed_32(change.spec_child().pid as int),
                ),
                union + 8,
                status as int,
            )
        },
    }
}

fn siginfo(change: Option<Change>, arch: Arch) -> (info: Vec<u8>)
    ensures
        info@ == spec_siginfo(change, arch),
{
    let mut info = zeros(SIGINFO_BYTES);
    if let Some(change) = change {
        let (code, status) = siginfo_of(&change);
        let union: usize = match arch {
            Arch::Arm => 12,
            _ => 16,
        };
        let _ = put_i32(&mut info, 0, SIGCHLD as i32);
        let _ = put_i32(&mut info, 8, code);
        let _ = put_i32(&mut info, union, crate::abi::signed_32(change.child().pid));
        let _ = put_i32(&mut info, union + 8, status);
    }
    info
}

/// Which children `waitid`'s two selectors name; `EINVAL` for an unknown kind.
pub open spec fn spec_waitid_selector(idtype: u32, id: u32) -> Result<Select, Errno> {
    if idtype == P_ALL {
        Ok(Select::Any)
    } else if idtype == P_PID {
        Ok(Select::Pid(id))
    } else if idtype == P_PGID {
        Ok(Select::Group(id))
    } else {
        Err(Errno::EINVAL)
    }
}

/// Whether `waitid` accepts these options: something to report, and nothing
/// unknown.
pub open spec fn waitid_options(options: u32) -> bool {
    options & (WEXITED | WUNTRACED | WCONTINUED) != 0 && options & !(WNOHANG | WEXITED | WUNTRACED
        | WCONTINUED | WNOWAIT | WAIT_THREAD_BITS) == 0
}

/// What the program's memory and answer are once what was found has been
/// reported through `waitid`'s two pointers.
pub open spec fn spec_report_info(
    m: Memory,
    infop: u64,
    rusage: u64,
    change: Option<Change>,
    arch: Arch,
) -> (Memory, Result<Waited, Errno>) {
    match written_if(m, infop, spec_siginfo(change, arch)) {
        Err(e) => (m, Err(e)),
        Ok(told) => match written_if(told, rusage, no_rusage(arch)) {
            Err(e) => (told, Err(e)),
            Ok(done) => (done, Ok(Waited::Answer(0))),
        },
    }
}

/// `waitid`.
///
/// As [`sys_wait4`], and `EINVAL` without one of `WEXITED`, `WUNTRACED` and
/// `WCONTINUED`, or for an unknown kind of id. A wait that found nothing
/// writes a `siginfo_t` of zeros.
pub fn sys_waitid(
    space: &mut AddressSpace,
    children: &mut Vec<Child>,
    idtype: u32,
    id: u32,
    infop: u64,
    options: u32,
    rusage: u64,
    signal_pending: bool,
    arch: Arch,
) -> (result: Result<Waited, Errno>)
    requires
        old(space).wf(),
    ensures
        final(space).wf(),
        final(space).same_layout(*old(space)),
        if !waitid_options(options) {
            &&& result == Err::<Waited, Errno>(Errno::EINVAL)
            &&& final(children)@ == old(children)@
            &&& final(space)@ == old(space)@
        } else {
            match spec_waitid_selector(idtype, id) {
                Err(e) => {
                    &&& result == Err::<Waited, Errno>(e)
                    &&& final(children)@ == old(children)@
                    &&& final(space)@ == old(space)@
                },
                Ok(select) => {
                    &&& final(children)@ == spec_waited(
                        old(children)@,
                        select,
                        options,
                        options & WNOWAIT == 0,
                    )
                    &&& match spec_wait(old(children)@, select, options, signal_pending) {
                        Err(e) => result == Err::<Waited, Errno>(e) && final(space)@
                            == old(space)@,
                        Ok(Waiting::Sleep) => result == Ok::<Waited, Errno>(Waited::Sleep)
                            && final(space)@ == old(space)@,
                        Ok(Waiting::Nothing) => (final(space)@, result) == spec_report_info(
                            old(space)@,
                            infop,
                            rusage,
                            None,
                            arch,
                        ),
                        Ok(Waiting::Found(change)) => (final(space)@, result) == spec_report_info(
                            old(space)@,
                            infop,
                            rusage,
                            Some(change),
                            arch,
                        ),
                    }
                },
            }
        },
{
    if options & (WEXITED | WUNTRACED | WCONTINUED) == 0 || options & !(WNOHANG | WEXITED
        | WUNTRACED | WCONTINUED | WNOWAIT | WAIT_THREAD_BITS) != 0 {
        return Err(Errno::EINVAL);
    }
    let select = if idtype == P_ALL {
        Select::Any
    } else if idtype == P_PID {
        Select::Pid(id)
    } else if idtype == P_PGID {
        Select::Group(id)
    } else {
        return Err(Errno::EINVAL);
    };
    let remove = options & WNOWAIT == 0;
    let found = match wait_for_child(children, select, options, remove, signal_pending)? {
        Waiting::Sleep => return Ok(Waited::Sleep),
        Waiting::Nothing => None,
        Waiting::Found(change) => Some(change),
    };
    let info = siginfo(found, arch);
    write_if(space, infop, info.as_slice())?;
    zero_rusage(space, rusage, arch)?;
    Ok(Waited::Answer(0))
}

// ---------------------------------------------------------------------------
// Process groups and sessions
// ---------------------------------------------------------------------------

/// A live process, as job control sees it.
#[derive(Clone, Copy, Debug, PartialEq, Eq, Structural)]
pub struct Member {
    /// Its pid.
    pub pid: u32,
    /// Its parent's.
    pub parent: u32,
    /// Its process group.
    pub pgid: u32,
    /// Its session.
    pub sid: u32,
}

/// Where the process `pid` is.
pub open spec fn spec_find(members: Seq<Member>, pid: int, from: int) -> Option<int>
    decreases members.len() - from,
{
    if from < 0 || from >= members.len() {
        None
    } else if members[from].pid == pid {
        Some(from)
    } else {
        spec_find(members, pid, from + 1)
    }
}

/// Where the process `pid` is.
pub fn find(members: &Vec<Member>, pid: u32) -> (at: Option<usize>)
    ensures
        match at {
            Some(i) => spec_find(members@, pid as int, 0) == Some(i as int) && i < members@.len()
                && members@[i as int].pid == pid,
            None => spec_find(members@, pid as int, 0) is None,
        },
{
    let mut i: usize = 0;
    while i < members.len()
        invariant
            i <= members@.len(),
            spec_find(members@, pid as int, 0) == spec_find(members@, pid as int, i as int),
        decreases members@.len() - i,
    {
        if members[i].pid == pid {
            return Some(i);
        }
        i = i + 1;
    }
    None
}

/// A found process has the pid it was looked for by, and is the only one.
pub proof fn lemma_find(members: Seq<Member>, pid: int, from: int)
    requires
        0 <= from,
    ensures
        match spec_find(members, pid, from) {
            Some(i) => from <= i < members.len() && members[i].pid == pid,
            None => forall|j: int| from <= j < members.len() ==> members[j].pid != pid,
        },
    decreases members.len() - from,
{
    if from < members.len() && members[from].pid != pid {
        lemma_find(members, pid, from + 1);
    }
}

/// Whether a process of session `sid` is in group `pgid`.
pub open spec fn group_exists(members: Seq<Member>, pgid: int, sid: int) -> bool {
    exists|i: int|
        0 <= i < members.len() && (#[trigger] members[i]).pgid == pgid && members[i].sid == sid
}

/// Which process `setpgid`'s `pid` names to the process at `me`: itself for
/// zero or its own pid, or one of its children.
pub open spec fn spec_setpgid_target(members: Seq<Member>, me: int, pid: int) -> Option<int> {
    if pid == 0 || pid == members[me].pid {
        Some(me)
    } else {
        match spec_find(members, pid, 0) {
            Some(i) if members[i].parent == members[me].pid => Some(i),
            _ => None,
        }
    }
}

/// The group `setpgid` asks for, or why it is refused.
pub open spec fn spec_setpgid(members: Seq<Member>, me: int, pid: int, pgid: int) -> Result<
    (int, u32),
    Errno,
> {
    if pgid < 0 {
        Err(Errno::EINVAL)
    } else {
        match spec_setpgid_target(members, me, pid) {
            None => Err(Errno::ESRCH),
            Some(at) => {
                let group = if pgid == 0 {
                    members[at].pid as int
                } else {
                    pgid
                };
                if members[at].sid == members[at].pid {
                    Err(Errno::EPERM)
                } else if group != members[at].pid && !group_exists(
                    members,
                    group,
                    members[me].sid as int,
                ) {
                    Err(Errno::EPERM)
                } else {
                    Ok((at, group as u32))
                }
            },
        }
    }
}

fn in_group(members: &Vec<Member>, pgid: u32, sid: u32) -> (yes: bool)
    ensures
        yes == group_exists(members@, pgid as int, sid as int),
{
    let mut i: usize = 0;
    while i < members.len()
        invariant
            i <= members@.len(),
            forall|j: int|
                0 <= j < i ==> !((#[trigger] members@[j]).pgid == pgid && members@[j].sid == sid),
        decreases members@.len() - i,
    {
        if members[i].pgid == pgid && members[i].sid == sid {
            return true;
        }
        i = i + 1;
    }
    false
}

/// `setpgid`, by the process at `me`.
///
/// `EINVAL` for a negative group; `ESRCH` if `pid` is neither the caller nor
/// one of its children; `EPERM` for a session leader, or a group that does not
/// exist in the caller's session.
pub fn sys_setpgid(members: &mut Vec<Member>, me: usize, pid: i32, pgid: i32) -> (result: Result<
    usize,
    Errno,
>)
    requires
        me < old(members)@.len(),
    ensures
        match spec_setpgid(old(members)@, me as int, pid as int, pgid as int) {
            Err(e) => result == Err::<usize, Errno>(e) && final(members)@ == old(members)@,
            Ok((at, group)) => result == Ok::<usize, Errno>(0) && final(members)@
                == old(members)@.update(at, Member { pgid: group, ..old(members)@[at] }),
        },
{
    if pgid < 0 {
        return Err(Errno::EINVAL);
    }
    let at: usize = if pid == 0 || (pid > 0 && pid as u32 == members[me].pid) {
        me
    } else if pid > 0 {
        match find(members, pid as u32) {
            Some(i) => {
                if members[i].parent != members[me].pid {
                    return Err(Errno::ESRCH);
                }
                i
            },
            None => return Err(Errno::ESRCH),
        }
    } else {
        proof {
            lemma_find(members@, pid as int, 0);
        }
        return Err(Errno::ESRCH);
    };
    let target = members[at];
    let group: u32 = if pgid == 0 {
        target.pid
    } else {
        pgid as u32
    };
    if target.sid == target.pid {
        return Err(Errno::EPERM);
    }
    if group != target.pid && !in_group(members, group, members[me].sid) {
        return Err(Errno::EPERM);
    }
    members.set(at, Member { pgid: group, ..target });
    Ok(0)
}

/// The process a `pid` of `getpgid` or `getsid` names to the process at `me`.
pub open spec fn spec_subject(members: Seq<Member>, me: int, pid: int) -> Result<Member, Errno> {
    if pid == 0 {
        Ok(members[me])
    } else {
        match spec_find(members, pid, 0) {
            Some(i) => Ok(members[i]),
            None => Err(Errno::ESRCH),
        }
    }
}

fn subject(members: &Vec<Member>, me: usize, pid: i32) -> (member: Result<Member, Errno>)
    requires
        me < members@.len(),
    ensures
        member == spec_subject(members@, me as int, pid as int),
{
    if pid == 0 {
        return Ok(members[me]);
    }
    if pid < 0 {
        proof {
            lemma_find(members@, pid as int, 0);
        }
        return Err(Errno::ESRCH);
    }
    match find(members, pid as u32) {
        Some(i) => Ok(members[i]),
        None => Err(Errno::ESRCH),
    }
}

/// `getpgid`: the process group of `pid`, or of the caller for zero; `ESRCH`
/// for a pid no process has.
pub fn sys_getpgid(members: &Vec<Member>, me: usize, pid: i32) -> (result: Result<usize, Errno>)
    requires
        me < members@.len(),
    ensures
        result == match spec_subject(members@, me as int, pid as int) {
            Ok(member) => Ok(member.pgid as usize),
            Err(e) => Err(e),
        },
{
    let member = subject(members, me, pid)?;
    Ok(member.pgid as usize)
}

/// `getsid`: the session of `pid`, or of the caller for zero; `ESRCH` for a
/// pid no process has.
pub fn sys_getsid(members: &Vec<Member>, me: usize, pid: i32) -> (result: Result<usize, Errno>)
    requires
        me < members@.len(),
    ensures
        result == match spec_subject(members@, me as int, pid as int) {
            Ok(member) => Ok(member.sid as usize),
            Err(e) => Err(e),
        },
{
    let member = subject(members, me, pid)?;
    Ok(member.sid as usize)
}

/// Whether any process is in the group numbered `pgid`.
pub open spec fn leads(members: Seq<Member>, pgid: int) -> bool {
    exists|i: int| 0 <= i < members.len() && (#[trigger] members[i]).pgid == pgid
}

/// `setsid`: lead a new session and process group.
///
/// `EPERM` if any process is in the group numbered as the caller is, which
/// stops a group leader from leaving its members in a session it no longer
/// belongs to.
pub fn sys_setsid(members: &mut Vec<Member>, me: usize) -> (result: Result<usize, Errno>)
    requires
        me < old(members)@.len(),
    ensures
        ({
            let caller = old(members)@[me as int];
            if leads(old(members)@, caller.pid as int) {
                result == Err::<usize, Errno>(Errno::EPERM) && final(members)@ == old(members)@
            } else {
                result == Ok::<usize, Errno>(caller.pid as usize) && final(members)@
                    == old(members)@.update(
                    me as int,
                    Member { pgid: caller.pid, sid: caller.pid, ..caller },
                )
            }
        }),
{
    let caller = members[me];
    let mut i: usize = 0;
    while i < members.len()
        invariant
            members@ == old(members)@,
            i <= members@.len(),
            forall|j: int| 0 <= j < i ==> (#[trigger] members@[j]).pgid != caller.pid,
            me < members@.len(),
            caller == members@[me as int],
        decreases members@.len() - i,
    {
        if members[i].pgid == caller.pid {
            return Err(Errno::EPERM);
        }
        i = i + 1;
    }
    members.set(me, Member { pgid: caller.pid, sid: caller.pid, ..caller });
    Ok(caller.pid as usize)
}

// ---------------------------------------------------------------------------
// What holds of children, groups and sessions
// ---------------------------------------------------------------------------

/// A wait takes at most the one child it reports, and leaves every other as it
/// was; one that leaves the child waitable leaves everything as it was.
pub proof fn law_a_wait_takes_only_what_it_reports(
    children: Seq<Child>,
    select: Select,
    options: u32,
    remove: bool,
    signal_pending: bool,
)
    ensures
        ({
            let after = spec_waited(children, select, options, remove);
            match spec_wait(children, select, options, signal_pending) {
                Ok(Waiting::Found(change)) => {
                    &&& children.contains(change.spec_child())
                    &&& select.takes(change.spec_child())
                    &&& !remove ==> after == children
                    &&& remove && change is Ended ==> after.len() + 1 == children.len()
                    &&& change !is Ended ==> after.len() == children.len()
                },
                _ => after == children,
            }
        }),
{
    lemma_first_seen(children, select, Look::Ended, 0);
    lemma_first_seen(
        children,
        select,
        Look::Changed(options & WUNTRACED != 0, options & WCONTINUED != 0),
        0,
    );
    if first_seen(children, select, Look::Ended, 0) is Some {
        lemma_seen_is_present(children, select, Look::Ended, 0);
    }
    let look = Look::Changed(options & WUNTRACED != 0, options & WCONTINUED != 0);
    if first_seen(children, select, look, 0) is Some {
        lemma_seen_is_present(children, select, look, 0);
    }
}

proof fn lemma_first_seen(children: Seq<Child>, select: Select, look: Look, from: int)
    requires
        0 <= from,
    ensures
        match first_seen(children, select, look, from) {
            Some(i) => from <= i < children.len() && seen(children[i], select, look),
            None => forall|j: int|
                from <= j < children.len() ==> !seen(#[trigger] children[j], select, look),
        },
    decreases children.len() - from,
{
    if from < children.len() && !seen(children[from], select, look) {
        lemma_first_seen(children, select, look, from + 1);
    }
}

/// A status word says which kind of change it is: its low byte is 0x7f for a
/// stop, with the signal above it, and a continue's is 0xffff, which no stop's
/// is.
pub proof fn law_status_words_are_told_apart(child: Child, signal: u32)
    requires
        0 < signal <= NSIG,
    ensures
        spec_status_word(Change::Stopped(child, signal)) % 256 == 0x7f,
        spec_status_word(Change::Stopped(child, signal)) / 256 == signal,
        spec_status_word(Change::Continued(child)) == 0xffff,
        spec_status_word(Change::Stopped(child, signal)) != spec_status_word(
            Change::Continued(child),
        ),
{
}

/// Making groups and sessions never changes which processes there are, and
/// after `setsid` its caller leads a group and a session of its own, which it
/// cannot do twice.
pub proof fn law_a_session_leader_leads_alone(members: Seq<Member>, me: int)
    requires
        0 <= me < members.len(),
        !leads(members, members[me].pid as int),
    ensures
        ({
            let caller = members[me];
            let after = members.update(
                me,
                Member { pgid: caller.pid, sid: caller.pid, ..caller },
            );
            &&& after[me].pgid == caller.pid
            &&& after[me].sid == caller.pid
            &&& leads(after, caller.pid as int)
            &&& forall|i: int|
                0 <= i < members.len() && i != me ==> (#[trigger] after[i]).pgid != caller.pid
            &&& spec_setpgid(after, me, 0, 0) == Err::<(int, u32), Errno>(Errno::EPERM)
        }),
{
    let caller = members[me];
    let after = members.update(me, Member { pgid: caller.pid, sid: caller.pid, ..caller });
    assert(after[me].pgid == caller.pid);
}

/// No call gives a process a namespace of its own.
pub proof fn law_no_namespace_is_granted(request: CloneRequest, target: Target)
    requires
        spec_clone_refused(request, target) is None,
    ensures
        request.flags & CLONE_NAMESPACES == 0,
{
}

/// A thread that is made shares its process's memory, handlers, descriptors
/// and directories, and sends nobody a signal when it ends.
pub proof fn law_a_thread_shares_everything(request: CloneRequest, target: Target)
    requires
        spec_clone_refused(request, target) is None,
        request.flags & CLONE_THREAD != 0,
    ensures
        request.flags & CLONE_VM != 0,
        request.flags & CLONE_SIGHAND != 0,
        spec_plan(request).share_files,
        spec_plan(request).share_fs,
        spec_plan(request).exit_signal == 0,
        !spec_plan(request).vfork,
{
    let flags = request.flags;
    assert(flags & (CLONE_FILES | CLONE_FS) == CLONE_FILES | CLONE_FS ==> flags & CLONE_FILES != 0
        && flags & CLONE_FS != 0) by (bit_vector);
}

/// A process that is made has memory of its own, unless its parent waits for
/// it to give that up.
pub proof fn law_a_process_shares_memory_only_while_its_parent_waits(
    request: CloneRequest,
    target: Target,
)
    requires
        spec_clone_refused(request, target) is None,
        request.flags & CLONE_THREAD == 0,
        request.flags & CLONE_VM != 0,
    ensures
        spec_plan(request).vfork,
{
}

// ---------------------------------------------------------------------------
// What making processes and waiting for them is for
// ---------------------------------------------------------------------------

/// Whether `given` is `value` if `there`, and nothing otherwise.
pub open spec fn just_if(given: Option<u64>, there: bool, value: u64) -> bool {
    &&& there ==> given == Some(value)
    &&& !there ==> given is None
}

/// A child is given what was asked for it: the stack that was named, and the
/// thread pointer and the places for its id exactly if they were asked for; it
/// shares what it was asked to share, and tells its parent with the signal it
/// was asked to.
pub proof fn law_a_child_is_given_what_was_asked(request: CloneRequest, target: Target)
    requires
        spec_clone_refused(request, target) is None,
    ensures
        ({
            let plan = spec_plan(request);
            let flags = request.flags;
            &&& just_if(plan.stack, request.stack != 0, request.stack)
            &&& just_if(plan.tls, flags & 0x8_0000 != 0, request.tls)
            &&& just_if(plan.parent_tid, flags & 0x10_0000 != 0, request.parent_tid)
            &&& just_if(plan.clear_tid, flags & 0x20_0000 != 0, request.child_tid)
            &&& just_if(plan.child_tid, flags & 0x100_0000 != 0, request.child_tid)
            &&& plan.thread <==> flags & 0x1_0000 != 0
            &&& plan.share_files <==> flags & 0x400 != 0
            &&& plan.share_fs <==> flags & 0x200 != 0
            &&& plan.vfork <==> !plan.thread && flags & 0x4000 != 0
            &&& plan.clear_handlers <==> !plan.thread && flags & 0x1_0000_0000 != 0
            &&& plan.into <==> request.cgroup is Some
            &&& plan.thread ==> plan.exit_signal == 0
            &&& !plan.thread ==> plan.exit_signal == flags % 256
        }),
{
    let flags = request.flags;
    assert(flags & 0xFF == flags % 256) by (bit_vector);
}

/// What may be made: any plain process, one that borrows its parent's memory
/// while that waits, and any thread that shares what threads share. What lies
/// between is refused, and so is a namespace and a pidfd.
pub proof fn law_what_can_be_made_is_made(request: CloneRequest, target: Target)
    ensures
        ({
            let flags = request.flags;
            let refused = spec_clone_refused(request, target);
            &&& flags & 0x7E03_9900 == 0 && (request.cgroup is None || !(target is Refused))
                ==> refused is None
            &&& flags & 0x7E03_9900 == 0x100 && flags & 0x4000 != 0
                && request.cgroup is None ==> refused is None
            &&& flags & 0x7E03_DF00 == 0x1_0F00 && (request.cgroup is None || target
                == Target::Same) ==> refused is None
            &&& flags & 0x7E02_0000 != 0 ==> refused == Some(Errno::EINVAL)
            &&& flags & 0x7E02_0000 == 0 && flags & 0x1_0800 == 0x1_0000 ==> refused == Some(
                Errno::EINVAL,
            )
            &&& flags & 0x7E02_0000 == 0 && flags & 0x900 == 0x800 ==> refused == Some(
                Errno::EINVAL,
            )
            &&& flags & 0x1000 != 0 ==> refused is Some
            &&& flags & 0x1_4100 == 0x100 ==> refused is Some
            &&& request.cgroup is Some && target is Refused ==> refused is Some
        }),
{
    let flags = request.flags;
    assert({
        &&& flags & 0x7E03_9900 == 0 ==> flags & 0x7E02_0000 == 0 && flags & 0x1_0000 == 0 && flags
            & 0x800 == 0 && flags & 0x100 == 0 && flags & 0x1000 == 0
        &&& flags & 0x7E03_9900 == 0x100 ==> flags & 0x7E02_0000 == 0 && flags & 0x1_0000 == 0
            && flags & 0x800 == 0 && flags & 0x1000 == 0
        &&& flags & 0x7E03_DF00 == 0x1_0F00 ==> flags & 0x7E02_0000 == 0 && flags & 0x1_0000 != 0
            && flags & 0x800 != 0 && flags & 0x100 != 0 && flags & (0x400u64 | 0x200u64)
            == 0x400u64 | 0x200u64 && flags & (0x4000u64 | 0x1000u64) == 0
        &&& flags & 0x1_0800 == 0x1_0000 ==> flags & 0x1_0000 != 0 && flags & 0x800 == 0
        &&& flags & 0x900 == 0x800 ==> flags & 0x800 != 0 && flags & 0x100 == 0
        &&& flags & 0x1000 != 0 ==> flags & (0x4000u64 | 0x1000u64) != 0
        &&& flags & 0x1_4100 == 0x100 ==> flags & 0x1_0000 == 0 && flags & 0x100 != 0 && flags
            & 0x4000 == 0
    }) by (bit_vector);
}

/// The calls say what they stand for: `fork` a child that tells its parent with
/// `SIGCHLD`, `vfork` one that borrows its parent's memory too, and `clone`
/// what its registers say, in the machine's order.
pub proof fn law_each_call_asks_for_its_own_child(
    m: Memory,
    a: Seq<u64>,
    arch: Arch,
    user_end: u64,
)
    requires
        a.len() == 6,
    ensures
        spec_request(m, CloneCall::Fork, a, arch, user_end) matches Ok(r) && r.flags == 17
            && r.stack == 0 && r.cgroup is None,
        spec_request(m, CloneCall::Vfork, a, arch, user_end) matches Ok(r) && r.flags == 0x4111
            && r.stack == 0 && r.cgroup is None,
        spec_request(m, CloneCall::Clone, a, arch, user_end) matches Ok(r) && r.flags == a[0]
            % 0x1_0000_0000 && r.stack == a[1] && r.parent_tid == a[2] && r.child_tid == (if arch
            == Arch::X86_64 {
            a[3]
        } else {
            a[4]
        }) && r.tls == (if arch == Arch::X86_64 {
            a[4]
        } else {
            a[3]
        }) && r.cgroup is None,
{
    assert(0x100u64 | 0x4000u64 | 17u64 == 0x4111) by (bit_vector);
    let flags = a[0];
    assert(flags & 0xFFFF_FFFF == flags % 0x1_0000_0000) by (bit_vector);
}

/// What a call lets through starts where a program may: its stack in the user
/// half, and on a machine that checks it its thread pointer too.
pub proof fn law_a_child_starts_in_the_user_half(
    m: Memory,
    call: CloneCall,
    a: Seq<u64>,
    arch: Arch,
    user_end: u64,
)
    ensures
        spec_sys_clone(m, call, a, arch, user_end) matches Ok(r) ==> {
            &&& spec_request(m, call, a, arch, user_end) == Ok::<CloneRequest, Errno>(r)
            &&& r.stack <= user_end
            &&& arch == Arch::X86_64 && r.flags & 0x8_0000 != 0 ==> r.tls == 0 || r.tls < user_end
        },
        spec_request(m, call, a, arch, user_end) matches Ok(r) ==> r.stack <= user_end && (arch
            != Arch::X86_64 || r.tls < user_end || r.tls == 0) ==> spec_sys_clone(
            m,
            call,
            a,
            arch,
            user_end,
        ) == Ok::<CloneRequest, Errno>(r),
        spec_request(m, call, a, arch, user_end) matches Err(e) ==> spec_sys_clone(
            m,
            call,
            a,
            arch,
            user_end,
        ) == Err::<CloneRequest, Errno>(e),
{
}

proof fn lemma_arg(m: Memory, at: int, size: int, index: int)
    requires
        0 <= index <= 10,
        8 * index + 8 <= size,
    ensures
        spec_arg(spec_args(m, at, size), index) == m.number(at + 8 * index, 8),
{
    let args = spec_args(m, at, size);
    assert(args.subrange(8 * index, 8 * index + 8) =~= m.read(at + 8 * index, 8));
    crate::bytes::lemma_byte_spans();
    crate::bytes::lemma_le_value_bound(m.read(at + 8 * index, 8));
}

/// `clone3` asks for what is in its structure, field by field: the flags with
/// the exit signal, the two places for the id, the top of the stack, the thread
/// pointer, and the cgroup where its flag is set.
pub proof fn law_clone3_asks_for_what_is_written(m: Memory, at: int, size: int, user_end: u64)
    ensures
        spec_clone3_request(m, at, size, user_end) matches Ok(r) ==> {
            let base = m.number(at + 40, 8);
            let length = m.number(at + 48, 8);
            &&& 64 <= size <= 4096
            &&& m.can_read(at, 64)
            &&& r.flags == (m.number(at, 8) as u64) | (m.number(at + 32, 8) as u64)
            &&& m.number(at + 32, 8) <= 64
            &&& r.child_tid == m.number(at + 16, 8)
            &&& r.parent_tid == m.number(at + 24, 8)
            &&& r.stack == base + length
            &&& base == 0 <==> length == 0
            &&& length > 0 ==> base + length <= user_end
            &&& r.tls == m.number(at + 56, 8)
            &&& r.cgroup is Some <==> (m.number(at, 8) as u64) & 0x2_0000_0000 != 0
            &&& r.cgroup matches Some(fd) ==> size >= 88 && fd == m.number(at + 80, 8)
            &&& (m.number(at, 8) as u64) & 0x4000FF == 0
            &&& size > 88 ==> forall|i: int| 88 <= i < size ==> #[trigger] m.bytes[at + i] == 0
        },
        size > 4096 ==> spec_clone3_request(m, at, size, user_end) == Err::<CloneRequest, Errno>(
            Errno::E2BIG,
        ),
        size < 64 ==> spec_clone3_request(m, at, size, user_end) == Err::<CloneRequest, Errno>(
            Errno::EINVAL,
        ),
{
    if let Ok(r) = spec_clone3_request(m, at, size, user_end) {
        lemma_arg(m, at, size, 0);
        lemma_arg(m, at, size, 2);
        lemma_arg(m, at, size, 3);
        lemma_arg(m, at, size, 4);
        lemma_arg(m, at, size, 5);
        lemma_arg(m, at, size, 6);
        lemma_arg(m, at, size, 7);
        if size >= 88 {
            lemma_arg(m, at, size, 10);
        }
        assert(0x40_0000u64 | 0xFFu64 == 0x40_00FF) by (bit_vector);
    }
}

/// The caller is told the child's id exactly if there is a child that runs; a
/// child that must not run is ended, one that could not be started is disowned
/// unless it is a thread, and the caller waits for one that borrows its memory.
pub proof fn law_the_caller_is_told_of_a_running_child(plan: Plan, birth: Birth)
    ensures
        ({
            let out = spec_outcome(plan, birth);
            let barred = birth matches Birth::Made { dying, removed, .. } && !plan.thread && (dying
                || (plan.into && removed));
            &&& out.answer is Ok <==> birth is Made && birth->started && !barred
            &&& out.answer matches Ok(id) ==> id == birth->id
            &&& out.kill <==> barred
            &&& out.disown <==> birth is Made && !barred && !birth->started && !plan.thread
            &&& out.ids <==> birth is Made && !barred
            &&& out.waits <==> out.answer is Ok && plan.vfork
            &&& birth == Birth::NoMemory ==> out.answer == Err::<usize, Errno>(Errno::ENOMEM)
            &&& birth == Birth::NoId ==> out.answer == Err::<usize, Errno>(Errno::EAGAIN)
            &&& out.disown ==> out.answer == Err::<usize, Errno>(Errno::EAGAIN)
            &&& barred ==> out.answer == Err::<usize, Errno>(
                if birth->dying {
                    Errno::EAGAIN
                } else {
                    Errno::ENODEV
                },
            )
        }),
{
}

/// A child's id is where its parent asked for it, and nothing else is written.
pub proof fn law_an_id_is_written_where_asked(m: Memory, at: Option<u64>, id: u32)
    requires
        m.valid(),
    ensures
        at is None ==> with_id(m, at, id) == m,
        at matches Some(place) ==> {
            &&& m.can_write(place as int, 4) ==> with_id(m, at, id).number(place as int, 4) == id
            &&& !m.can_write(place as int, 4) ==> with_id(m, at, id) == m
            &&& forall|a: int|
                !(place <= a < place + 4) && m.bytes.dom().contains(a) ==> #[trigger] with_id(
                    m,
                    at,
                    id,
                ).bytes[a] == m.bytes[a]
        },
{
    if let Some(place) = at {
        crate::bytes::lemma_byte_spans();
        crate::bytes::lemma_le_round_trip(id as nat, 4);
        if m.can_write(place as int, 4) {
            assert(m.can_read(place as int, 4)) by {
                assert forall|a: int|
                    place <= a < place + 4 implies #[trigger] m.bytes.dom().contains(a) by {
                    assert(m.writable.contains(a));
                }
            }
            crate::uaccess::lemma_read_after_store(
                m,
                place as int,
                le_bytes(id as nat, 4),
                place as int,
                4,
            );
        }
    }
}

/// A wait is for whom its number names: any child for -1, those of the caller's
/// own group for 0, the child of that number above, and the group of the
/// number's magnitude below.
pub proof fn law_a_wait_is_for_whom_it_names(own_group: u32, pid: int, child: Child)
    requires
        -0x8000_0000 <= pid <= 0x7FFF_FFFF,
    ensures
        ({
            let takes = spec_wait4_selector(own_group, pid).takes(child);
            &&& pid == -1 ==> takes
            &&& pid == 0 ==> (takes <==> child.pgid == own_group)
            &&& pid > 0 ==> (takes <==> child.pid == pid)
            &&& pid < -1 ==> (takes <==> child.pgid == -pid)
        }),
{
}

/// `waitid` waits for any child, the child of a number, or those of a group.
pub proof fn law_waitid_waits_for_whom_it_names(idtype: u32, id: u32, child: Child)
    ensures
        spec_waitid_selector(idtype, id) is Ok <==> idtype <= 2,
        spec_waitid_selector(idtype, id) matches Err(e) ==> e == Errno::EINVAL,
        spec_waitid_selector(idtype, id) matches Ok(select) ==> {
            &&& idtype == 0 ==> select.takes(child)
            &&& idtype == 1 ==> (select.takes(child) <==> child.pid == id)
            &&& idtype == 2 ==> (select.takes(child) <==> child.pgid == id)
        },
{
}

/// `waitid` takes a kind of change to wait for, and no option it does not know.
pub proof fn law_waitid_is_told_what_to_wait_for(options: u32)
    ensures
        waitid_options(options) <==> options & 0xE != 0 && options & 0x1EFF_FFF0 == 0,
{
    assert(4u32 | 2u32 | 8u32 == 0xE) by (bit_vector);
    assert(!(1u32 | 4u32 | 2u32 | 8u32 | 0x0100_0000u32 | 0xE000_0000u32) == 0x1EFF_FFF0u32)
        by (bit_vector);
}

/// A wait reports what there is to report, and only that: a child that ended
/// before one that stopped or went on, the first such among those it is for; a
/// stop or a continue only where that was asked. Without a child to wait for it
/// fails; with nothing to report it answers nothing where it must not wait.
pub proof fn law_a_wait_reports_what_there_is(
    children: Seq<Child>,
    select: Select,
    options: u32,
    signal_pending: bool,
    i: int,
)
    requires
        0 <= i < children.len(),
        select.takes(children[i]),
    ensures
        ({
            let answer = spec_wait(children, select, options, signal_pending);
            let c = children[i];
            let first_end = c.end is Some && forall|j: int|
                0 <= j < i && select.takes(#[trigger] children[j]) ==> children[j].end is None;
            &&& options & 4 != 0 && first_end ==> answer == Ok::<Waiting, Errno>(
                Waiting::Found(Change::Ended(c)),
            )
            &&& answer matches Ok(Waiting::Found(Change::Ended(found))) ==> options & 4 != 0
                && found.end is Some
            &&& answer matches Ok(Waiting::Found(Change::Stopped(found, signal))) ==> options & 2
                != 0 && found.pending == Pending::Stopped(signal)
            &&& answer matches Ok(Waiting::Found(Change::Continued(found))) ==> options & 8 != 0
                && found.pending == Pending::Continued
            &&& answer != Err::<Waiting, Errno>(Errno::ECHILD)
            &&& (options & 2 != 0 && c.pending is Stopped) || (options & 8 != 0 && c.pending
                == Pending::Continued) || (options & 4 != 0 && c.end is Some) ==> answer is Ok
                && answer->Ok_0 is Found
            &&& answer == Ok::<Waiting, Errno>(Waiting::Nothing) ==> options & 1 != 0
            &&& answer == Ok::<Waiting, Errno>(Waiting::Sleep) ==> options & 1 == 0
                && !signal_pending
            &&& answer is Err ==> options & 1 == 0 && signal_pending && answer == Err::<
                Waiting,
                Errno,
            >(Errno::ERESTARTSYS)
        }),
{
    let changed = Look::Changed(options & WUNTRACED != 0, options & WCONTINUED != 0);
    lemma_first_seen(children, select, Look::Ended, 0);
    lemma_first_seen(children, select, Look::Present, 0);
    lemma_first_seen(children, select, changed, 0);
    assert(seen(children[i], select, Look::Present));
    if children[i].end is Some {
        assert(seen(children[i], select, Look::Ended));
        lemma_seen_first(children, select, Look::Ended, 0, i);
    }
    if (options & 2 != 0 && children[i].pending is Stopped) || (options & 8 != 0
        && children[i].pending == Pending::Continued) {
        assert(seen(children[i], select, changed));
    }
}

proof fn lemma_seen_first(children: Seq<Child>, select: Select, look: Look, from: int, i: int)
    requires
        0 <= from <= i < children.len(),
        seen(children[i], select, look),
    ensures
        (forall|j: int| from <= j < i ==> !seen(#[trigger] children[j], select, look))
            ==> first_seen(children, select, look, from) == Some(i),
    decreases i - from,
{
    if from < i && !seen(children[from], select, look) {
        lemma_seen_first(children, select, look, from + 1, i);
    }
}

/// A wait with no child to wait for fails.
pub proof fn law_a_wait_for_nobody_fails(
    children: Seq<Child>,
    select: Select,
    options: u32,
    signal_pending: bool,
)
    requires
        forall|i: int| 0 <= i < children.len() ==> !select.takes(#[trigger] children[i]),
    ensures
        spec_wait(children, select, options, signal_pending) == Err::<Waiting, Errno>(
            Errno::ECHILD,
        ),
{
    lemma_first_seen(children, select, Look::Present, 0);
}

/// What `wait4` reports is read back: the child's number is the answer, and the
/// status word is where it was asked for.
pub proof fn law_a_report_is_read_back(
    m: Memory,
    wstatus: u64,
    rusage: u64,
    change: Change,
    arch: Arch,
)
    requires
        m.valid(),
    ensures
        ({
            let (after, result) = spec_report(m, wstatus, rusage, change, arch);
            &&& result matches Ok(answer) ==> answer == Waited::Answer(
                change.spec_child().pid as usize,
            )
            &&& result is Ok && rusage == 0 && wstatus != 0 ==> after.number(wstatus as int, 4)
                == spec_status_word(change)
            &&& wstatus == 0 && rusage == 0 ==> result is Ok && after == m
            &&& result matches Err(e) ==> e == Errno::EFAULT
            &&& wstatus != 0 && m.can_write(wstatus as int, 4) && rusage == 0 ==> result is Ok
        }),
{
    let word = spec_status_word(change);
    crate::bytes::lemma_byte_spans();
    assert(word < 0x1_0000_0000);
    crate::bytes::lemma_le_round_trip(word, 4);
    if wstatus != 0 && m.can_write(wstatus as int, 4) {
        assert(m.can_read(wstatus as int, 4)) by {
            assert forall|a: int|
                wstatus <= a < wstatus + 4 implies #[trigger] m.bytes.dom().contains(a) by {
                assert(m.writable.contains(a));
            }
        }
        crate::uaccess::lemma_read_after_store(
            m,
            wstatus as int,
            le_bytes(word, 4),
            wstatus as int,
            4,
        );
    }
}

/// A child that ended is reported with the status it ended with, and one that
/// stopped with the signal that stopped it.
pub proof fn law_a_status_is_the_childs_own(child: Child, signal: u32)
    requires
        signal < 0x80,
    ensures
        child.end matches Some(end) ==> spec_status_word(Change::Ended(child)) as int == (if end.wait_status
            < 0 {
            end.wait_status + 0x1_0000_0000
        } else {
            end.wait_status as int
        }),
        spec_status_word(Change::Stopped(child, signal)) == 256 * signal + 127,
        spec_siginfo_of(Change::Stopped(child, signal)) == (5i32, signal as i32),
        spec_siginfo_of(Change::Continued(child)) == (6i32, 18i32),
        child.end matches Some(end) ==> end.signal is None && 0 <= end.exit_status < 256
            ==> spec_siginfo_of(Change::Ended(child)) == (1i32, end.exit_status),
        child.end matches Some(end) ==> end.signal == Some(signal) ==> spec_siginfo_of(
            Change::Ended(child),
        ) == (2i32, signal as i32),
{
}

/// A process changes group only as it may: only the caller's own or a child's,
/// never a session leader's, and only to a group of its own number or one there
/// is in the caller's session.
pub proof fn law_a_group_is_joined_only_where_it_may_be(
    members: Seq<Member>,
    me: int,
    pid: int,
    pgid: int,
)
    requires
        0 <= me < members.len(),
        pgid <= 0x7FFF_FFFF,
    ensures
        spec_setpgid(members, me, pid, pgid) matches Ok((at, group)) ==> {
            &&& 0 <= at < members.len()
            &&& pid == 0 ==> at == me
            &&& pid != 0 ==> members[at].pid == pid
            &&& at == me || members[at].parent == members[me].pid
            &&& members[at].sid != members[at].pid
            &&& pgid == 0 ==> group == members[at].pid
            &&& pgid != 0 ==> group == pgid
            &&& group == members[at].pid || exists|i: int|
                0 <= i < members.len() && (#[trigger] members[i]).pgid == group && members[i].sid
                    == members[me].sid
        },
        pgid < 0 ==> spec_setpgid(members, me, pid, pgid) == Err::<(int, u32), Errno>(
            Errno::EINVAL,
        ),
        pgid >= 0 && pid == 0 && members[me].sid != members[me].pid && (pgid == 0 || pgid
            == members[me].pid) ==> spec_setpgid(members, me, pid, pgid) == Ok::<
            (int, u32),
            Errno,
        >((me, members[me].pid)),
        pgid > 0 && pid == 0 && members[me].sid != members[me].pid && pgid != members[me].pid && (
        exists|i: int|
            0 <= i < members.len() && (#[trigger] members[i]).pgid == pgid && members[i].sid
                == members[me].sid) ==> spec_setpgid(members, me, pid, pgid) is Ok,
{
    lemma_find(members, pid, 0);
}

/// A process asked after is the caller for zero, and else the one that has the
/// number; nobody is found for a number nobody has.
pub proof fn law_a_member_is_found_by_its_number(members: Seq<Member>, me: int, pid: int)
    requires
        0 <= me < members.len(),
    ensures
        pid == 0 ==> spec_subject(members, me, pid) == Ok::<Member, Errno>(members[me]),
        pid != 0 ==> (spec_subject(members, me, pid) matches Ok(member) ==> member.pid == pid
            && members.contains(member)),
        pid != 0 ==> (spec_subject(members, me, pid) matches Err(e) ==> e == Errno::ESRCH
            && forall|i: int| 0 <= i < members.len() ==> (#[trigger] members[i]).pid != pid),
{
    lemma_find(members, pid, 0);
}

/// What `clone` plans, of the request it was given.
pub proof fn law_a_plan_is_the_requests(request: CloneRequest, target: Target, plan: Result<Plan, Errno>)
    requires
        call_ensures(clone_with, (&request, target), plan),
    ensures
        plan matches Ok(p) ==> {
            let flags = request.flags;
            &&& just_if(p.stack, request.stack != 0, request.stack)
            &&& just_if(p.tls, flags & 0x8_0000 != 0, request.tls)
            &&& just_if(p.parent_tid, flags & 0x10_0000 != 0, request.parent_tid)
            &&& just_if(p.clear_tid, flags & 0x20_0000 != 0, request.child_tid)
            &&& just_if(p.child_tid, flags & 0x100_0000 != 0, request.child_tid)
            &&& p.thread <==> flags & 0x1_0000 != 0
            &&& p.share_files <==> flags & 0x400 != 0
            &&& p.share_fs <==> flags & 0x200 != 0
            &&& p.vfork <==> !p.thread && flags & 0x4000 != 0
            &&& p.clear_handlers <==> !p.thread && flags & 0x1_0000_0000 != 0
            &&& p.thread ==> p.exit_signal == 0
            &&& !p.thread ==> p.exit_signal == flags % 256
        },
        plan is Ok <==> spec_clone_refused(request, target) is None,
{
    if plan is Ok {
        law_a_child_is_given_what_was_asked(request, target);
    }
}

/// A thread that would have a descriptor table or directories of its own, or
/// that its maker waits for, or has a descriptor for, is not made.
pub proof fn law_a_thread_is_made_whole(request: CloneRequest, refused: Option<Errno>)
    requires
        call_ensures(clone_thread, (&request,), refused),
    ensures
        refused is None <==> request.flags & 0x400 != 0 && request.flags & 0x200 != 0
            && request.flags & 0x4000 == 0 && request.flags & 0x1000 == 0,
        refused matches Some(e) ==> e == Errno::ENOSYS,
{
    let flags = request.flags;
    assert({
        &&& flags & (0x400u64 | 0x200u64) == 0x400u64 | 0x200u64 <==> flags & 0x400 != 0 && flags
            & 0x200 != 0
        &&& flags & (0x4000u64 | 0x1000u64) == 0 <==> flags & 0x4000 == 0 && flags & 0x1000 == 0
    }) by (bit_vector);
}

/// A child starts in the cgroup its descriptor names, if it names one it may
/// start in.
pub proof fn law_a_cgroup_is_the_descriptors(
    table: FdTable,
    open: Vec<OpenFile>,
    descriptor: i32,
    answer: Result<bool, Errno>,
    target: Target,
)
    requires
        call_ensures(cgroup_target, (&table, &open, descriptor, answer), target),
    ensures
        !table@.dom().contains(descriptor as int) ==> target == Target::Refused(Errno::EBADF),
        table@.dom().contains(descriptor as int) ==> {
            &&& answer == Ok::<bool, Errno>(true) <==> target == Target::Same
            &&& answer == Ok::<bool, Errno>(false) <==> target == Target::Other
            &&& answer matches Err(e) ==> target == Target::Refused(e)
        },
{
}

proof fn lemma_with_i32(bytes: Seq<u8>, at: int, value: int, other: int)
    requires
        0 <= at,
        at + 4 <= bytes.len(),
        0 <= other,
        other + 4 <= bytes.len(),
        -0x8000_0000 <= value <= 0x7FFF_FFFF,
    ensures
        with_i32(bytes, at, value).len() == bytes.len(),
        crate::bytes::le_value(with_i32(bytes, at, value).subrange(at, at + 4)) == spec_bits(value),
        other + 4 <= at || at + 4 <= other ==> with_i32(bytes, at, value).subrange(
            other,
            other + 4,
        ) == bytes.subrange(other, other + 4),
{
    crate::bytes::lemma_byte_spans();
    crate::bytes::lemma_le_round_trip(spec_bits(value), 4);
    let after = with_i32(bytes, at, value);
    assert(after.subrange(at, at + 4) =~= le_bytes(spec_bits(value), 4));
    if other + 4 <= at || at + 4 <= other {
        assert(after.subrange(other, other + 4) =~= bytes.subrange(other, other + 4));
    }
}

/// What `waitid` writes of a child is where a program looks for it: the signal
/// first, then what happened, who it happened to and what with.
pub proof fn law_a_report_has_its_fields_in_place(change: Change, arch: Arch)
    requires
        change.spec_child().pid <= 0x7FFF_FFFF,
    ensures
        ({
            let bytes = spec_siginfo(Some(change), arch);
            let (code, status) = spec_siginfo_of(change);
            let at: int = if arch == Arch::Arm {
                12
            } else {
                16
            };
            &&& bytes.len() == 128
            &&& crate::bytes::le_value(bytes.subrange(0, 4)) == 17
            &&& crate::bytes::le_value(bytes.subrange(8, 12)) == spec_bits(code as int)
            &&& crate::bytes::le_value(bytes.subrange(at, at + 4)) == change.spec_child().pid
            &&& crate::bytes::le_value(bytes.subrange(at + 8, at + 12)) == spec_bits(status as int)
        }),
{
    let (code, status) = spec_siginfo_of(change);
    let at: int = if arch == Arch::Arm {
        12
    } else {
        16
    };
    let pid = change.spec_child().pid as int;
    let zero = Seq::new(SIGINFO_BYTES as nat, |i: int| 0u8);
    let a = with_i32(zero, 0, 17);
    let b = with_i32(a, 8, code as int);
    let c = with_i32(b, at, pid);
    let d = with_i32(c, at + 8, status as int);
    lemma_with_i32(zero, 0, 17, 0);
    lemma_with_i32(a, 8, code as int, 0);
    lemma_with_i32(b, at, pid, 0);
    lemma_with_i32(b, at, pid, 8);
    lemma_with_i32(c, at + 8, status as int, 0);
    lemma_with_i32(c, at + 8, status as int, 8);
    lemma_with_i32(c, at + 8, status as int, at);
    assert(d == spec_siginfo(Some(change), arch));
}

} // verus!
