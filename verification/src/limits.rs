//! What a process may use: resource limits, the processors it may run on, and
//! the scheduling policy it runs under.
//!
//! One limit is real: the number of open files is the descriptor table's own
//! limit, read from and written to the table. The others are kept and
//! reported. Affinity, policy and priority are checked and then not applied.

use vstd::prelude::*;

use crate::abi::{low_u32, spec_int, spec_low_u32, Arch, TimeWidth};
use crate::attributes::{
    get, int_arg, spec_get, spec_update, told_u32, update, Book, Kept, Limit, Table, RLIM_NLIMITS,
};
use crate::bytes::{le_bytes, lemma_le_bytes_len};
use crate::errno::Errno;
use crate::fd::{FdTable, MAX_LIMIT};
use crate::nr::Syscall;
use crate::process::{of, spec_of, spec_subject, subject, Process, Subject};
use crate::time::{lemma_can_read_split, write_pair};
use crate::uaccess::{AddressSpace, Memory};

verus! {

/// The stack's size.
pub const RLIMIT_STACK: u32 = 3;

/// The number of open files.
pub const RLIMIT_NOFILE: u32 = 7;

/// No limit.
pub const RLIM_INFINITY: u64 = 0xFFFF_FFFF_FFFF_FFFF;

/// The default soft stack limit.
pub const STACK_DEFAULT: u64 = 0x80_0000;

/// The default hard descriptor limit.
pub const NOFILE_HARD_DEFAULT: u64 = 4096;

/// `SCHED_OTHER`, the only policy anything runs under.
pub const SCHED_OTHER: i32 = 0;

// ---------------------------------------------------------------------------
// Resource limits
// ---------------------------------------------------------------------------

/// The limit a process is under for `resource`, from what is kept for it and
/// its descriptor table's own limit; `EINVAL` for a resource there is not.
pub open spec fn spec_limit(kept: Kept, nofile: u32, resource: u32) -> Result<Limit, Errno> {
    if resource >= RLIM_NLIMITS {
        Err(Errno::EINVAL)
    } else {
        let stored = kept.limits[resource as int];
        if resource == RLIMIT_NOFILE {
            let hard = match stored {
                Some(limit) => limit.hard,
                None => NOFILE_HARD_DEFAULT,
            };
            Ok(
                Limit {
                    soft: nofile as u64,
                    hard: if hard < nofile {
                        nofile as u64
                    } else {
                        hard
                    },
                },
            )
        } else {
            match stored {
                Some(limit) => Ok(limit),
                None => Ok(
                    Limit {
                        soft: if resource == RLIMIT_STACK {
                            STACK_DEFAULT
                        } else {
                            RLIM_INFINITY
                        },
                        hard: RLIM_INFINITY,
                    },
                ),
            }
        }
    }
}

/// The limit `process` is under for `resource`.
///
/// `EINVAL` for a resource there is not.
pub fn limit_of(table: &Table, process: &Process, files: &FdTable, resource: u32) -> (limit: Result<
    Limit,
    Errno,
>)
    requires
        table.wf(),
    ensures
        limit == spec_limit(
            spec_get(table@, process.pid, process.started),
            files.limit,
            resource,
        ),
{
    if resource as usize >= RLIM_NLIMITS {
        return Err(Errno::EINVAL);
    }
    let kept = get(table, process);
    let stored = kept.limits[resource as usize];
    if resource == RLIMIT_NOFILE {
        let soft: u64 = files.limit as u64;
        let hard: u64 = match stored {
            Some(limit) => limit.hard,
            None => NOFILE_HARD_DEFAULT,
        };
        return Ok(
            Limit {
                soft,
                hard: if hard < soft {
                    soft
                } else {
                    hard
                },
            },
        );
    }
    match stored {
        Some(limit) => Ok(limit),
        None => Ok(
            Limit {
                soft: if resource == RLIMIT_STACK {
                    STACK_DEFAULT
                } else {
                    RLIM_INFINITY
                },
                hard: RLIM_INFINITY,
            },
        ),
    }
}

/// Why a new limit is refused, if it is: `EINVAL` for a resource there is not
/// or a soft limit above the hard one, `EPERM` for more open files than any
/// table can have.
pub open spec fn limit_refused(resource: u32, new: Limit) -> Option<Errno> {
    if resource >= RLIM_NLIMITS || new.soft > new.hard {
        Some(Errno::EINVAL)
    } else if resource == RLIMIT_NOFILE && new.hard > MAX_LIMIT {
        Some(Errno::EPERM)
    } else {
        None
    }
}

/// The table once a process is under `new` for `resource`.
pub open spec fn limited(
    book: Book,
    live: Seq<Process>,
    process: Process,
    resource: u32,
    new: Limit,
) -> Book {
    let kept = spec_get(book, process.pid, process.started);
    spec_update(
        book,
        live,
        process.pid,
        process.started,
        Kept { limits: kept.limits.update(resource as int, Some(new)), ..kept },
    )
}

/// A descriptor table's own limit once its process is under `new` for
/// `resource`.
pub open spec fn nofile_after(nofile: u32, resource: u32, new: Limit) -> u32 {
    if resource == RLIMIT_NOFILE {
        new.soft as u32
    } else {
        nofile
    }
}

/// Put `process` under `new` for `resource`.
fn set_limit(
    table: &mut Table,
    live: &Vec<Process>,
    process: &Process,
    files: &mut FdTable,
    resource: u32,
    new: Limit,
) -> (done: Result<(), Errno>)
    requires
        old(table).wf(),
        old(files).wf(),
    ensures
        final(table).wf(),
        final(files).wf(),
        final(files)@ == old(files)@,
        match limit_refused(resource, new) {
            Some(e) => {
                &&& done == Err::<(), Errno>(e)
                &&& final(table)@ == old(table)@
                &&& final(files).limit == old(files).limit
            },
            None => {
                &&& done is Ok
                &&& final(table)@ == limited(old(table)@, live@, *process, resource, new)
                &&& final(files).limit == nofile_after(old(files).limit, resource, new)
            },
        },
{
    if resource as usize >= RLIM_NLIMITS {
        return Err(Errno::EINVAL);
    }
    if new.soft > new.hard {
        return Err(Errno::EINVAL);
    }
    if resource == RLIMIT_NOFILE {
        if new.hard > MAX_LIMIT as u64 {
            return Err(Errno::EPERM);
        }
        let _ = files.set_limit(new.soft as u32);
    }
    let mut kept = get(table, process);
    let ghost before = kept@;
    kept.limits[resource as usize] = Some(new);
    proof {
        assert(kept@.limits =~= before.limits.update(resource as int, Some(new)));
    }
    update(table, live, process, kept);
    Ok(())
}

/// A limit as a word-sized field carries it: on a 32-bit machine, anything
/// wider is no limit, which is all bits set.
pub open spec fn spec_to_word(value: u64, arch: Arch) -> u64 {
    if arch == Arch::Arm && value > 0xFFFF_FFFF {
        0xFFFF_FFFF
    } else {
        value
    }
}

/// A limit as a word-sized field carries it.
pub fn to_word(value: u64, arch: Arch) -> (out: u64)
    ensures
        out == spec_to_word(value, arch),
{
    if arch == Arch::Arm && value > 0xFFFF_FFFF {
        0xFFFF_FFFF
    } else {
        value
    }
}

/// The inverse: all 32 bits set means no limit.
pub open spec fn spec_from_word(value: u64, arch: Arch) -> u64 {
    if arch == Arch::Arm && value == 0xFFFF_FFFF {
        RLIM_INFINITY
    } else {
        value
    }
}

/// The inverse of [`to_word`].
pub fn from_word(value: u64, arch: Arch) -> (out: u64)
    ensures
        out == spec_from_word(value, arch),
{
    if arch == Arch::Arm && value == 0xFFFF_FFFF {
        RLIM_INFINITY
    } else {
        value
    }
}

/// A limit that fits a word, or is none at all, survives the word.
pub proof fn law_a_limit_survives_its_word(value: u64, arch: Arch)
    requires
        value < 0xFFFF_FFFF || value == RLIM_INFINITY || arch != Arch::Arm,
    ensures
        spec_from_word(spec_to_word(value, arch), arch) == value,
{
}

/// What writing two numbers of `width` bytes, one behind the other, comes to:
/// the first that cannot be written ends it.
pub open spec fn put_two(m: Memory, at: u64, first: u64, second: u64, width: nat) -> (
    Memory,
    Result<usize, Errno>,
) {
    match m.put(at as int, le_bytes(first as nat, width)) {
        Err(e) => (m, Err(e)),
        Ok(one) => match one.put(at + width, le_bytes(second as nat, width)) {
            Err(e) => (one, Err(e)),
            Ok(two) => (two, Ok(0)),
        },
    }
}

/// What `getrlimit` does to memory, and its answer.
pub open spec fn spec_getrlimit(
    m: Memory,
    book: Book,
    process: Process,
    nofile: u32,
    resource: u32,
    at: u64,
    arch: Arch,
) -> (Memory, Result<usize, Errno>) {
    match spec_limit(spec_get(book, process.pid, process.started), nofile, resource) {
        Err(e) => (m, Err(e)),
        Ok(limit) => put_two(
            m,
            at,
            spec_to_word(limit.soft, arch),
            spec_to_word(limit.hard, arch),
            arch.spec_word(),
        ),
    }
}

/// `getrlimit`: two words, the soft limit and the hard one.
pub fn sys_getrlimit(
    table: &Table,
    space: &mut AddressSpace,
    process: &Process,
    files: &FdTable,
    resource: u32,
    at: u64,
    arch: Arch,
) -> (result: Result<usize, Errno>)
    requires
        table.wf(),
        old(space).wf(),
    ensures
        final(space).wf(),
        final(space).same_layout(*old(space)),
        (final(space)@, result) == spec_getrlimit(
            old(space)@,
            table@,
            *process,
            files.limit,
            resource,
            at,
            arch,
        ),
{
    let limit = limit_of(table, process, files, resource)?;
    let word: usize = arch.word();
    let soft: u64 = to_word(limit.soft, arch);
    let hard: u64 = to_word(limit.hard, arch);
    proof {
        lemma_le_bytes_len(soft as nat, word as nat);
        lemma_le_bytes_len(hard as nat, word as nat);
    }
    space.put_number(at, soft, word)?;
    if at > u64::MAX - word as u64 {
        proof {
            assert(old(space)@.writable.contains(at + word - 1));
            old(space).lemma_unmapped_above(at + word - 1);
        }
        return Err(Errno::EFAULT);
    }
    space.put_number(at + word as u64, hard, word)?;
    Ok(0)
}

/// The limit two words at `at` ask for; `EFAULT` unless both can be read.
pub open spec fn spec_read_limit(m: Memory, at: u64, arch: Arch) -> Result<Limit, Errno> {
    let word = arch.spec_word();
    if m.can_read(at as int, 2 * word as int) {
        Ok(
            Limit {
                soft: spec_from_word(m.number(at as int, word) as u64, arch),
                hard: spec_from_word(m.number(at + word, word) as u64, arch),
            },
        )
    } else {
        Err(Errno::EFAULT)
    }
}

/// Read the limit two `word`-byte numbers at `at` ask for.
fn read_two(space: &AddressSpace, at: u64, word: usize) -> (two: Result<(u64, u64), Errno>)
    requires
        space.wf(),
        word == 4 || word == 8,
    ensures
        match two {
            Ok((first, second)) => {
                &&& space@.can_read(at as int, 2 * word as int)
                &&& first == space@.number(at as int, word as nat)
                &&& second == space@.number(at + word, word as nat)
            },
            Err(e) => e == Errno::EFAULT && !space@.can_read(at as int, 2 * word as int),
        },
{
    proof {
        lemma_can_read_split(space@, at as int, word as int, word as int);
    }
    let first: u64 = space.get_number(at, word)?;
    if at > u64::MAX - word as u64 {
        proof {
            assert(space@.bytes.dom().contains(at + word - 1));
            space.lemma_unmapped_above(at + word - 1);
        }
        return Err(Errno::EFAULT);
    }
    let second: u64 = space.get_number(at + word as u64, word)?;
    Ok((first, second))
}

/// What `setrlimit` leaves: the table, the descriptor table's own limit, and
/// the answer.
pub open spec fn spec_setrlimit(
    m: Memory,
    book: Book,
    live: Seq<Process>,
    process: Process,
    nofile: u32,
    resource: u32,
    at: u64,
    arch: Arch,
) -> (Book, u32, Result<usize, Errno>) {
    match spec_read_limit(m, at, arch) {
        Err(e) => (book, nofile, Err(e)),
        Ok(new) => match limit_refused(resource, new) {
            Some(e) => (book, nofile, Err(e)),
            None => (
                limited(book, live, process, resource, new),
                nofile_after(nofile, resource, new),
                Ok(0),
            ),
        },
    }
}

/// `setrlimit`: the structure is read before the resource is checked.
pub fn sys_setrlimit(
    table: &mut Table,
    space: &AddressSpace,
    live: &Vec<Process>,
    process: &Process,
    files: &mut FdTable,
    resource: u32,
    at: u64,
    arch: Arch,
) -> (result: Result<usize, Errno>)
    requires
        old(table).wf(),
        space.wf(),
        old(files).wf(),
    ensures
        final(table).wf(),
        final(files).wf(),
        final(files)@ == old(files)@,
        (final(table)@, final(files).limit, result) == spec_setrlimit(
            space@,
            old(table)@,
            live@,
            *process,
            old(files).limit,
            resource,
            at,
            arch,
        ),
{
    let (first, second) = read_two(space, at, arch.word())?;
    let new = Limit { soft: from_word(first, arch), hard: from_word(second, arch) };
    set_limit(table, live, process, files, resource, new)?;
    Ok(0)
}

/// What the limits of descriptors, one table for each live process, are.
pub open spec fn nofiles(tables: Seq<FdTable>) -> Seq<u32> {
    tables.map(|i: int, table: FdTable| table.limit)
}

/// What `prlimit64` works on.
#[verifier::ext_equal]
pub ghost struct Limits {
    /// What processes have said about themselves.
    pub book: Book,
    /// The caller's memory.
    pub memory: Memory,
    /// The limit of the caller's own descriptor table.
    pub mine: u32,
    /// That of each live process's.
    pub theirs: Seq<u32>,
}

impl Limits {
    /// The limit of a process's descriptor table.
    pub open spec fn nofile(self, subject: Subject) -> u32 {
        match subject {
            Subject::Caller => self.mine,
            Subject::Other(i) => self.theirs[i as int],
        }
    }

    /// The same, with another limit for one process's descriptor table.
    pub open spec fn with_nofile(self, subject: Subject, nofile: u32) -> Limits {
        match subject {
            Subject::Caller => Limits { mine: nofile, ..self },
            Subject::Other(i) => Limits { theirs: self.theirs.update(i as int, nofile), ..self },
        }
    }
}

/// The limit `prlimit64` is given: none at all for a null pointer, and
/// otherwise two 64-bit numbers; `EFAULT` unless they can be read.
pub open spec fn spec_new_limit(m: Memory, at: u64) -> Result<Option<Limit>, Errno> {
    if at == 0 {
        Ok(None)
    } else if m.can_read(at as int, 16) {
        Ok(
            Some(
                Limit {
                    soft: m.number(at as int, 8) as u64,
                    hard: m.number(at + 8, 8) as u64,
                },
            ),
        )
    } else {
        Err(Errno::EFAULT)
    }
}

/// What `prlimit64` leaves, and its answer.
///
/// The new limit is read, the process found, the resource checked, the old
/// limit taken, the new one applied, and only then the old one written: a bad
/// pointer for the old one is `EFAULT` after the change has been made.
pub open spec fn spec_prlimit64(
    state: Limits,
    live: Seq<Process>,
    process: Process,
    pid: int,
    resource: u32,
    new_at: u64,
    old_at: u64,
) -> (Limits, Result<usize, Errno>) {
    match spec_new_limit(state.memory, new_at) {
        Err(e) => (state, Err(e)),
        Ok(asked) => match spec_subject(process, live, pid) {
            Err(e) => (state, Err(e)),
            Ok(named) => {
                let target = spec_of(process, live, named);
                let nofile = state.nofile(named);
                match spec_limit(
                    spec_get(state.book, target.pid, target.started),
                    nofile,
                    resource,
                ) {
                    Err(e) => (state, Err(e)),
                    Ok(before) => {
                        let changed = match asked {
                            None => Ok(state),
                            Some(new) => match limit_refused(resource, new) {
                                Some(e) => Err(e),
                                None => Ok(
                                    Limits {
                                        book: limited(state.book, live, target, resource, new),
                                        ..state.with_nofile(
                                            named,
                                            nofile_after(nofile, resource, new),
                                        )
                                    },
                                ),
                            },
                        };
                        match changed {
                            Err(e) => (state, Err(e)),
                            Ok(now) => if old_at == 0 {
                                (now, Ok(0))
                            } else {
                                match now.memory.put(
                                    old_at as int,
                                    le_bytes(before.soft as nat, 8) + le_bytes(
                                        before.hard as nat,
                                        8,
                                    ),
                                ) {
                                    Ok(memory) => (Limits { memory, ..now }, Ok(0)),
                                    Err(e) => (now, Err(e)),
                                }
                            },
                        }
                    },
                }
            },
        },
    }
}

/// `prlimit64`: two 64-bit numbers on every machine, for the caller or any
/// process.
pub fn sys_prlimit64(
    table: &mut Table,
    space: &mut AddressSpace,
    live: &Vec<Process>,
    process: &Process,
    mine: &mut FdTable,
    theirs: &mut Vec<FdTable>,
    pid: i32,
    resource: u32,
    new_at: u64,
    old_at: u64,
) -> (result: Result<usize, Errno>)
    requires
        old(table).wf(),
        old(space).wf(),
        old(mine).wf(),
        old(theirs)@.len() == live@.len(),
        forall|i: int| 0 <= i < old(theirs)@.len() ==> (#[trigger] old(theirs)@[i]).wf(),
    ensures
        final(table).wf(),
        final(space).wf(),
        final(space).same_layout(*old(space)),
        final(mine).wf(),
        final(mine)@ == old(mine)@,
        final(theirs)@.len() == live@.len(),
        forall|i: int|
            0 <= i < final(theirs)@.len() ==> (#[trigger] final(theirs)@[i]).wf()
                && final(theirs)@[i]@ == old(theirs)@[i]@,
        ({
            let (after, answer) = spec_prlimit64(
                Limits {
                    book: old(table)@,
                    memory: old(space)@,
                    mine: old(mine).limit,
                    theirs: nofiles(old(theirs)@),
                },
                live@,
                *process,
                pid as int,
                resource,
                new_at,
                old_at,
            );
            &&& result == answer
            &&& final(table)@ == after.book
            &&& final(space)@ == after.memory
            &&& final(mine).limit == after.mine
            &&& nofiles(final(theirs)@) == after.theirs
        }),
{
    let new: Option<Limit> = if new_at == 0 {
        None
    } else {
        let (soft, hard) = read_two(space, new_at, 8)?;
        Some(Limit { soft, hard })
    };
    let named = subject(process, live, pid)?;
    let target = of(process, live, named);
    let ghost before = theirs@;
    let previous: Limit = match named {
        Subject::Caller => limit_of(table, target, mine, resource)?,
        Subject::Other(i) => limit_of(table, target, &theirs[i], resource)?,
    };
    if let Some(new) = new {
        match named {
            Subject::Caller => set_limit(table, live, target, mine, resource, new)?,
            Subject::Other(i) => {
                let done = set_limit(table, live, target, &mut theirs[i], resource, new);
                proof {
                    assert(nofiles(theirs@) =~= nofiles(before).update(
                        i as int,
                        theirs@[i as int].limit,
                    ));
                    if limit_refused(resource, new) is Some {
                        assert(nofiles(theirs@) =~= nofiles(before));
                    }
                }
                done?
            },
        }
    }
    if old_at != 0 {
        proof {
            lemma_le_bytes_len(previous.soft as nat, 8);
            lemma_le_bytes_len(previous.hard as nat, 8);
        }
        write_pair(space, old_at, previous.soft, previous.hard, 8)?;
    }
    Ok(0)
}

/// A limit that was set is the one read back: for open files through the
/// descriptor table's own limit, for anything else as it was given.
pub proof fn law_a_limit_reads_back(
    book: Book,
    live: Seq<Process>,
    process: Process,
    nofile: u32,
    resource: u32,
    new: Limit,
)
    requires
        limit_refused(resource, new) is None,
        spec_get(book, process.pid, process.started).wf(),
    ensures
        spec_limit(
            spec_get(
                limited(book, live, process, resource, new),
                process.pid,
                process.started,
            ),
            nofile_after(nofile, resource, new),
            resource,
        ) == Ok::<Limit, Errno>(new),
        resource == RLIMIT_NOFILE ==> nofile_after(nofile, resource, new) == new.soft,
{
}

/// Setting one limit changes no other.
pub proof fn law_other_limits_stay(
    book: Book,
    live: Seq<Process>,
    process: Process,
    nofile: u32,
    resource: u32,
    new: Limit,
    other: u32,
)
    requires
        limit_refused(resource, new) is None,
        other != resource,
        spec_get(book, process.pid, process.started).wf(),
    ensures
        spec_limit(
            spec_get(
                limited(book, live, process, resource, new),
                process.pid,
                process.started,
            ),
            nofile_after(nofile, resource, new),
            other,
        ) == spec_limit(spec_get(book, process.pid, process.started), nofile, other),
{
}

// ---------------------------------------------------------------------------
// Processors
// ---------------------------------------------------------------------------

/// One processor of the machine.
#[derive(Clone, Copy, Debug, PartialEq, Eq, Structural)]
pub struct Cpu {
    /// Its number.
    pub logical: usize,
    /// Whether it is running.
    pub online: bool,
}

/// The machine's processors.
#[derive(Debug)]
pub struct Machine {
    /// How many it has.
    pub count: usize,
    /// What is known of each, once they have been found.
    pub topology: Option<Vec<Cpu>>,
}

/// Bytes in a processor mask: enough whole words for every processor.
pub open spec fn spec_mask_bytes(count: usize, arch: Arch) -> int {
    let word = arch.spec_word() as int;
    ((count + 8 * word - 1) / (8 * word)) * word
}

/// Bytes in a processor mask: enough whole words for every processor.
pub fn mask_bytes(machine: &Machine, arch: Arch) -> (n: usize)
    ensures
        n == spec_mask_bytes(machine.count, arch),
        8 * n >= machine.count,
        n <= machine.count / 8 + 8,
{
    let count: u128 = machine.count as u128;
    match arch {
        Arch::Arm => (((count + 31) / 32) * 4) as usize,
        _ => (((count + 63) / 64) * 8) as usize,
    }
}

/// The numbers of the first `n` processors that are running.
pub open spec fn running(cpus: Seq<Cpu>, n: int) -> Seq<usize>
    decreases n,
{
    if n <= 0 {
        Seq::empty()
    } else if cpus[n - 1].online {
        running(cpus, n - 1).push(cpus[n - 1].logical)
    } else {
        running(cpus, n - 1)
    }
}

/// The numbers of the processors that are running; the first alone until they
/// have been found.
pub open spec fn spec_online(machine: Machine) -> Seq<usize> {
    match machine.topology {
        Some(cpus) => running(cpus@, cpus@.len() as int),
        None => seq![0usize],
    }
}

/// The numbers of the processors that are running.
pub fn online_cpus(machine: &Machine) -> (online: Vec<usize>)
    ensures
        online@ == spec_online(*machine),
{
    let mut online: Vec<usize> = Vec::new();
    match &machine.topology {
        Some(cpus) => {
            let mut i: usize = 0;
            while i < cpus.len()
                invariant
                    i <= cpus@.len(),
                    online@ == running(cpus@, i as int),
                decreases cpus@.len() - i,
            {
                if cpus[i].online {
                    online.push(cpus[i].logical);
                }
                i = i + 1;
            }
        },
        None => {
            online.push(0);
            assert(online@ =~= seq![0usize]);
        },
    }
    online
}

/// Whether `cpu` is among the processors that are running.
pub open spec fn is_online(online: Seq<usize>, cpu: int) -> bool {
    exists|k: int| 0 <= k < online.len() && online[k] == cpu
}

/// `weight` if `cpu` is running, and nothing otherwise.
pub open spec fn weighed(online: Seq<usize>, cpu: int, weight: int) -> int {
    if is_online(online, cpu) {
        weight
    } else {
        0
    }
}

/// The mask of the processors that are running: processor `8 * i + b` is bit
/// `b` of byte `i`.
pub open spec fn online_mask(online: Seq<usize>, size: nat) -> Seq<u8> {
    Seq::new(
        size,
        |i: int|
            (weighed(online, 8 * i, 1) + weighed(online, 8 * i + 1, 2) + weighed(
                online,
                8 * i + 2,
                4,
            ) + weighed(online, 8 * i + 3, 8) + weighed(online, 8 * i + 4, 16) + weighed(
                online,
                8 * i + 5,
                32,
            ) + weighed(online, 8 * i + 6, 64) + weighed(online, 8 * i + 7, 128)) as u8,
    )
}

/// `weight` if `cpu` is running, and nothing otherwise.
fn weigh(online: &Vec<usize>, cpu: u128, weight: u8) -> (n: u8)
    ensures
        n == weighed(online@, cpu as int, weight as int),
{
    let mut k: usize = 0;
    while k < online.len()
        invariant
            k <= online@.len(),
            forall|j: int| 0 <= j < k ==> online@[j] != cpu,
        decreases online@.len() - k,
    {
        if online[k] as u128 == cpu {
            return weight;
        }
        k = k + 1;
    }
    0
}

/// The mask of the processors that are running, `size` bytes of it.
fn build_mask(online: &Vec<usize>, size: usize) -> (mask: Vec<u8>)
    ensures
        mask@ == online_mask(online@, size as nat),
{
    let mut mask: Vec<u8> = Vec::new();
    let mut i: usize = 0;
    while i < size
        invariant
            i <= size,
            mask@ == online_mask(online@, i as nat),
        decreases size - i,
    {
        let base: u128 = 8 * (i as u128);
        let byte: u8 = weigh(online, base, 1) + weigh(online, base + 1, 2) + weigh(
            online,
            base + 2,
            4,
        ) + weigh(online, base + 3, 8) + weigh(online, base + 4, 16) + weigh(online, base + 5, 32)
            + weigh(online, base + 6, 64) + weigh(online, base + 7, 128);
        mask.push(byte);
        assert(mask@ =~= online_mask(online@, (i + 1) as nat));
        i = i + 1;
    }
    assert(mask@ =~= online_mask(online@, size as nat));
    mask
}

/// What `sched_getaffinity` does to memory, and its answer: how many bytes it
/// wrote.
pub open spec fn spec_getaffinity(
    m: Memory,
    machine: Machine,
    process: Process,
    live: Seq<Process>,
    pid: int,
    len: u32,
    at: u64,
    arch: Arch,
) -> (Memory, Result<usize, Errno>) {
    if 8 * len < machine.count || len as int % arch.spec_word() as int != 0 {
        (m, Err(Errno::EINVAL))
    } else {
        match spec_subject(process, live, pid) {
            Err(e) => (m, Err(e)),
            Ok(_) => {
                let whole = spec_mask_bytes(machine.count, arch);
                let size = if len < whole {
                    len as int
                } else {
                    whole
                };
                match m.put(at as int, online_mask(spec_online(machine), size as nat)) {
                    Ok(after) => (after, Ok(size as usize)),
                    Err(e) => (m, Err(e)),
                }
            },
        }
    }
}

/// `sched_getaffinity`: the processors that are running, as a bit mask. The
/// answer is the number of bytes written, not zero.
///
/// `EINVAL` unless the length covers every processor and is a whole number of
/// words.
pub fn sys_sched_getaffinity(
    space: &mut AddressSpace,
    machine: &Machine,
    live: &Vec<Process>,
    process: &Process,
    pid: i32,
    len: u32,
    at: u64,
    arch: Arch,
) -> (result: Result<usize, Errno>)
    requires
        old(space).wf(),
    ensures
        final(space).wf(),
        final(space).same_layout(*old(space)),
        (final(space)@, result) == spec_getaffinity(
            old(space)@,
            *machine,
            *process,
            live@,
            pid as int,
            len,
            at,
            arch,
        ),
{
    if 8 * (len as u64) < machine.count as u64 || len % (arch.word() as u32) != 0 {
        return Err(Errno::EINVAL);
    }
    let _target = subject(process, live, pid)?;
    let whole: usize = mask_bytes(machine, arch);
    let size: usize = if (len as usize) < whole {
        len as usize
    } else {
        whole
    };
    let mask = build_mask(&online_cpus(machine), size);
    space.copy_to_user(at, mask.as_slice())?;
    Ok(size)
}

/// What bit `b` of a byte is worth.
pub open spec fn bit_weight(b: int) -> int {
    if b == 0 {
        1
    } else if b == 1 {
        2
    } else if b == 2 {
        4
    } else if b == 3 {
        8
    } else if b == 4 {
        16
    } else if b == 5 {
        32
    } else if b == 6 {
        64
    } else {
        128
    }
}

/// Whether a mask names processor `cpu`.
pub open spec fn names(mask: Seq<u8>, cpu: int) -> bool {
    &&& 0 <= cpu / 8 < mask.len()
    &&& (mask[cpu / 8] as int / bit_weight(cpu % 8)) % 2 == 1
}

/// Whether a mask names a processor that is running.
pub open spec fn runnable(mask: Seq<u8>, online: Seq<usize>) -> bool {
    exists|k: int| 0 <= k < online.len() && names(mask, #[trigger] online[k] as int)
}

/// Whether a mask names processor `cpu`.
fn mask_names(mask: &Vec<u8>, cpu: usize) -> (yes: bool)
    ensures
        yes == names(mask@, cpu as int),
{
    let at: usize = cpu / 8;
    if at >= mask.len() {
        return false;
    }
    let b: usize = cpu % 8;
    let byte: u8 = mask[at];
    let shifted: u8 = if b == 0 {
        byte
    } else if b == 1 {
        byte / 2
    } else if b == 2 {
        byte / 4
    } else if b == 3 {
        byte / 8
    } else if b == 4 {
        byte / 16
    } else if b == 5 {
        byte / 32
    } else if b == 6 {
        byte / 64
    } else {
        byte / 128
    };
    shifted % 2 == 1
}

/// The answer of `sched_setaffinity`.
pub open spec fn spec_setaffinity(
    m: Memory,
    machine: Machine,
    process: Process,
    live: Seq<Process>,
    pid: int,
    len: u32,
    at: u64,
    arch: Arch,
) -> Result<usize, Errno> {
    let whole = spec_mask_bytes(machine.count, arch);
    let take = if len < whole {
        len as int
    } else {
        whole
    };
    if !m.can_read(at as int, take) {
        Err(Errno::EFAULT)
    } else {
        match spec_subject(process, live, pid) {
            Err(e) => Err(e),
            Ok(_) => if runnable(m.read(at as int, take as nat), spec_online(machine)) {
                Ok(0)
            } else {
                Err(Errno::EINVAL)
            },
        }
    }
}

/// `sched_setaffinity`: checked, accepted, and not applied.
///
/// A short mask is extended with zeros and a long one cut. `EINVAL` unless it
/// names a processor that is running.
pub fn sys_sched_setaffinity(
    space: &AddressSpace,
    machine: &Machine,
    live: &Vec<Process>,
    process: &Process,
    pid: i32,
    len: u32,
    at: u64,
    arch: Arch,
) -> (result: Result<usize, Errno>)
    requires
        space.wf(),
    ensures
        result == spec_setaffinity(
            space@,
            *machine,
            *process,
            live@,
            pid as int,
            len,
            at,
            arch,
        ),
{
    let whole: usize = mask_bytes(machine, arch);
    let take: usize = if (len as u64) < whole as u64 {
        len as usize
    } else {
        whole
    };
    let mask = space.copy_from_user(at, take)?;
    let _target = subject(process, live, pid)?;
    let online = online_cpus(machine);
    let mut k: usize = 0;
    while k < online.len()
        invariant
            k <= online@.len(),
            online@ == spec_online(*machine),
            forall|j: int| 0 <= j < k ==> !names(mask@, #[trigger] online@[j] as int),
            mask@ == space@.read(at as int, take as nat),
            runnable(mask@, online@) ==> spec_setaffinity(
                space@,
                *machine,
                *process,
                live@,
                pid as int,
                len,
                at,
                arch,
            ) == Ok::<usize, Errno>(0),
        decreases online@.len() - k,
    {
        if mask_names(&mask, online[k]) {
            assert(names(mask@, online@[k as int] as int));
            return Ok(0);
        }
        k = k + 1;
    }
    Err(Errno::EINVAL)
}

/// The binary digit worth `weight` of a number that is `low` below it and
/// `high` twos above.
proof fn lemma_digit(low: int, digit: int, high: int, weight: int, whole: int)
    requires
        0 <= low < weight,
        0 <= digit <= 1,
        0 <= high,
        whole == low + weight * digit + 2 * (weight * high),
    ensures
        (whole / weight) % 2 == digit,
{
    let q = digit + 2 * high;
    assert(whole == q * weight + low) by (nonlinear_arith)
        requires
            q == digit + 2 * high,
            whole == low + weight * digit + 2 * (weight * high),
    ;
    vstd::arithmetic::div_mod::lemma_fundamental_div_mod_converse(whole, weight, q, low);
}

/// The mask `sched_getaffinity` writes names exactly the processors that are
/// running, of those it has room for.
pub proof fn law_the_mask_names_the_running(online: Seq<usize>, size: nat, cpu: int)
    requires
        0 <= cpu < 8 * size,
    ensures
        names(online_mask(online, size), cpu) == is_online(online, cpu),
{
    let i = cpu / 8;
    let b = cpu % 8;
    assert(cpu == 8 * i + b);
    let byte = online_mask(online, size)[i] as int;
    let d0 = weighed(online, 8 * i, 1);
    let d1 = weighed(online, 8 * i + 1, 1);
    let d2 = weighed(online, 8 * i + 2, 1);
    let d3 = weighed(online, 8 * i + 3, 1);
    let d4 = weighed(online, 8 * i + 4, 1);
    let d5 = weighed(online, 8 * i + 5, 1);
    let d6 = weighed(online, 8 * i + 6, 1);
    let d7 = weighed(online, 8 * i + 7, 1);
    assert(byte == d0 + 2 * d1 + 4 * d2 + 8 * d3 + 16 * d4 + 32 * d5 + 64 * d6 + 128 * d7);
    if b == 0 {
        lemma_digit(0, d0, d1 + 2 * d2 + 4 * d3 + 8 * d4 + 16 * d5 + 32 * d6 + 64 * d7, 1, byte);
    } else if b == 1 {
        lemma_digit(d0, d1, d2 + 2 * d3 + 4 * d4 + 8 * d5 + 16 * d6 + 32 * d7, 2, byte);
    } else if b == 2 {
        lemma_digit(d0 + 2 * d1, d2, d3 + 2 * d4 + 4 * d5 + 8 * d6 + 16 * d7, 4, byte);
    } else if b == 3 {
        lemma_digit(d0 + 2 * d1 + 4 * d2, d3, d4 + 2 * d5 + 4 * d6 + 8 * d7, 8, byte);
    } else if b == 4 {
        lemma_digit(d0 + 2 * d1 + 4 * d2 + 8 * d3, d4, d5 + 2 * d6 + 4 * d7, 16, byte);
    } else if b == 5 {
        lemma_digit(d0 + 2 * d1 + 4 * d2 + 8 * d3 + 16 * d4, d5, d6 + 2 * d7, 32, byte);
    } else if b == 6 {
        lemma_digit(d0 + 2 * d1 + 4 * d2 + 8 * d3 + 16 * d4 + 32 * d5, d6, d7, 64, byte);
    } else {
        lemma_digit(
            d0 + 2 * d1 + 4 * d2 + 8 * d3 + 16 * d4 + 32 * d5 + 64 * d6,
            d7,
            0,
            128,
            byte,
        );
    }
}

/// What `sched_getaffinity` reported can be given back to
/// `sched_setaffinity`, as long as a processor the mask has room for runs.
pub proof fn law_the_reported_mask_is_accepted(online: Seq<usize>, size: nat, cpu: int)
    requires
        0 <= cpu < 8 * size,
        is_online(online, cpu),
    ensures
        runnable(online_mask(online, size), online),
{
    law_the_mask_names_the_running(online, size, cpu);
    let k = choose|k: int| 0 <= k < online.len() && online[k] == cpu;
    assert(names(online_mask(online, size), online[k] as int));
}

// ---------------------------------------------------------------------------
// Scheduling policy
// ---------------------------------------------------------------------------

/// What `sched_getparam` does to memory, and its answer.
pub open spec fn spec_getparam(
    m: Memory,
    process: Process,
    live: Seq<Process>,
    pid: int,
    at: u64,
) -> (Memory, Result<usize, Errno>) {
    if at == 0 || pid < 0 {
        (m, Err(Errno::EINVAL))
    } else {
        match spec_subject(process, live, pid) {
            Err(e) => (m, Err(e)),
            Ok(_) => told_u32(m, at, 0),
        }
    }
}

/// `sched_getparam`: one `int`, the priority, which is always zero.
///
/// `EINVAL` for a null pointer or a negative pid, before any lookup.
pub fn sys_sched_getparam(
    space: &mut AddressSpace,
    live: &Vec<Process>,
    process: &Process,
    pid: i32,
    at: u64,
) -> (result: Result<usize, Errno>)
    requires
        old(space).wf(),
    ensures
        final(space).wf(),
        final(space).same_layout(*old(space)),
        (final(space)@, result) == spec_getparam(
            old(space)@,
            *process,
            live@,
            pid as int,
            at,
        ),
{
    if at == 0 || pid < 0 {
        return Err(Errno::EINVAL);
    }
    let _target = subject(process, live, pid)?;
    proof {
        lemma_le_bytes_len(0, 4);
    }
    space.put_u32(at, 0)?;
    Ok(0)
}

/// The answer of `sched_setscheduler`, and of `sched_setparam`, which asks for
/// [`SCHED_OTHER`].
pub open spec fn spec_setscheduler(
    m: Memory,
    process: Process,
    live: Seq<Process>,
    pid: int,
    policy: int,
    at: u64,
) -> Result<usize, Errno> {
    if policy < 0 || at == 0 || pid < 0 {
        Err(Errno::EINVAL)
    } else if !m.can_read(at as int, 4) {
        Err(Errno::EFAULT)
    } else {
        match spec_subject(process, live, pid) {
            Err(e) => Err(e),
            Ok(_) => if policy != SCHED_OTHER || m.number(at as int, 4) != 0 {
                Err(Errno::EINVAL)
            } else {
                Ok(0)
            },
        }
    }
}

/// `sched_setparam`: only priority zero is valid, so that is all that is
/// accepted.
pub fn sys_sched_setparam(
    space: &AddressSpace,
    live: &Vec<Process>,
    process: &Process,
    pid: i32,
    at: u64,
) -> (result: Result<usize, Errno>)
    requires
        space.wf(),
    ensures
        result == spec_setscheduler(
            space@,
            *process,
            live@,
            pid as int,
            SCHED_OTHER as int,
            at,
        ),
{
    sys_sched_setscheduler(space, live, process, pid, SCHED_OTHER, at)
}

/// The answer of `sched_getscheduler`.
pub open spec fn spec_getscheduler(process: Process, live: Seq<Process>, pid: int) -> Result<
    usize,
    Errno,
> {
    if pid < 0 {
        Err(Errno::EINVAL)
    } else {
        match spec_subject(process, live, pid) {
            Err(e) => Err(e),
            Ok(_) => Ok(0),
        }
    }
}

/// `sched_getscheduler`: [`SCHED_OTHER`], for every process.
pub fn sys_sched_getscheduler(live: &Vec<Process>, process: &Process, pid: i32) -> (result: Result<
    usize,
    Errno,
>)
    ensures
        result == spec_getscheduler(*process, live@, pid as int),
{
    if pid < 0 {
        return Err(Errno::EINVAL);
    }
    let _target = subject(process, live, pid)?;
    Ok(0)
}

/// `sched_setscheduler`: [`SCHED_OTHER`] at priority zero is accepted, being
/// what every process already has; anything else is `EINVAL`.
///
/// A real-time policy would be a promise that the scheduler has no class to
/// keep, so it is refused rather than accepted and ignored.
pub fn sys_sched_setscheduler(
    space: &AddressSpace,
    live: &Vec<Process>,
    process: &Process,
    pid: i32,
    policy: i32,
    at: u64,
) -> (result: Result<usize, Errno>)
    requires
        space.wf(),
    ensures
        result == spec_setscheduler(space@, *process, live@, pid as int, policy as int, at),
{
    if policy < 0 || at == 0 || pid < 0 {
        return Err(Errno::EINVAL);
    }
    let priority: u32 = space.get_u32(at)?;
    let _target = subject(process, live, pid)?;
    if policy != SCHED_OTHER || priority != 0 {
        return Err(Errno::EINVAL);
    }
    Ok(0)
}

/// The lowest and highest priority of a policy; `EINVAL` for one there is not.
pub open spec fn spec_priority_range(policy: int) -> Result<(usize, usize), Errno> {
    if policy == 1 || policy == 2 {
        Ok((1, 99))
    } else if policy == 0 || policy == 3 || policy == 5 || policy == 6 {
        Ok((0, 0))
    } else {
        Err(Errno::EINVAL)
    }
}

/// The lowest and highest priority of a policy: 1 to 99 for the two real-time
/// ones, and zero for the others.
pub fn priority_range(policy: i32) -> (range: Result<(usize, usize), Errno>)
    ensures
        range == spec_priority_range(policy as int),
{
    if policy == 1 || policy == 2 {
        Ok((1, 99))
    } else if policy == 0 || policy == 3 || policy == 5 || policy == 6 {
        Ok((0, 0))
    } else {
        Err(Errno::EINVAL)
    }
}

/// What `sched_rr_get_interval` does to memory, and its answer.
pub open spec fn spec_rr_get_interval(
    m: Memory,
    process: Process,
    live: Seq<Process>,
    pid: int,
    at: u64,
    field: nat,
) -> (Memory, Result<usize, Errno>) {
    if pid < 0 {
        (m, Err(Errno::EINVAL))
    } else {
        match spec_subject(process, live, pid) {
            Err(e) => (m, Err(e)),
            Ok(_) => match m.put(at as int, le_bytes(0, field) + le_bytes(0, field)) {
                Ok(after) => (after, Ok(0)),
                Err(e) => (m, Err(e)),
            },
        }
    }
}

/// `sched_rr_get_interval`: zero, because no task has a fixed quantum.
pub fn sys_sched_rr_get_interval(
    space: &mut AddressSpace,
    live: &Vec<Process>,
    process: &Process,
    pid: i32,
    at: u64,
    width: TimeWidth,
    arch: Arch,
) -> (result: Result<usize, Errno>)
    requires
        old(space).wf(),
    ensures
        final(space).wf(),
        final(space).same_layout(*old(space)),
        (final(space)@, result) == spec_rr_get_interval(
            old(space)@,
            *process,
            live@,
            pid as int,
            at,
            width.spec_field(arch),
        ),
{
    if pid < 0 {
        return Err(Errno::EINVAL);
    }
    let _target = subject(process, live, pid)?;
    let field: usize = width.field(arch);
    proof {
        lemma_le_bytes_len(0, field as nat);
    }
    write_pair(space, at, 0, 0, field)?;
    Ok(0)
}

// ---------------------------------------------------------------------------
// The calls
// ---------------------------------------------------------------------------

/// What one of this module's calls leaves, and its answer; `None` for a call
/// that is not one of them.
pub open spec fn spec_dispatch(
    state: Limits,
    machine: Machine,
    process: Process,
    live: Seq<Process>,
    call: Syscall,
    a: Seq<u64>,
    arch: Arch,
) -> Option<(Limits, Result<usize, Errno>)> {
    let first = spec_int(a[0] as int);
    let resource = spec_low_u32(a[0] as int) as u32;
    let length = spec_low_u32(a[1] as int) as u32;
    let m = state.memory;
    match call {
        Syscall::Getrlimit => {
            let (memory, answer) = spec_getrlimit(
                m,
                state.book,
                process,
                state.mine,
                resource,
                a[1],
                arch,
            );
            Some((Limits { memory, ..state }, answer))
        },
        Syscall::Setrlimit => {
            let (book, mine, answer) = spec_setrlimit(
                m,
                state.book,
                live,
                process,
                state.mine,
                resource,
                a[1],
                arch,
            );
            Some((Limits { book, mine, ..state }, answer))
        },
        Syscall::Prlimit64 => Some(
            spec_prlimit64(state, live, process, first, length, a[2], a[3]),
        ),
        Syscall::SchedGetaffinity => {
            let (memory, answer) = spec_getaffinity(
                m,
                machine,
                process,
                live,
                first,
                length,
                a[2],
                arch,
            );
            Some((Limits { memory, ..state }, answer))
        },
        Syscall::SchedSetaffinity => Some(
            (state, spec_setaffinity(m, machine, process, live, first, length, a[2], arch)),
        ),
        Syscall::SchedGetparam => {
            let (memory, answer) = spec_getparam(m, process, live, first, a[1]);
            Some((Limits { memory, ..state }, answer))
        },
        Syscall::SchedSetparam => Some(
            (state, spec_setscheduler(m, process, live, first, SCHED_OTHER as int, a[1])),
        ),
        Syscall::SchedGetscheduler => Some((state, spec_getscheduler(process, live, first))),
        Syscall::SchedSetscheduler => Some(
            (state, spec_setscheduler(m, process, live, first, spec_int(a[1] as int), a[2])),
        ),
        Syscall::SchedGetPriorityMax => Some(
            (
                state,
                match spec_priority_range(first) {
                    Ok((_, max)) => Ok(max),
                    Err(e) => Err(e),
                },
            ),
        ),
        Syscall::SchedGetPriorityMin => Some(
            (
                state,
                match spec_priority_range(first) {
                    Ok((min, _)) => Ok(min),
                    Err(e) => Err(e),
                },
            ),
        ),
        Syscall::SchedRrGetInterval => {
            let (memory, answer) = spec_rr_get_interval(
                m,
                process,
                live,
                first,
                a[1],
                TimeWidth::Native.spec_field(arch),
            );
            Some((Limits { memory, ..state }, answer))
        },
        Syscall::SchedRrGetIntervalTime64 => {
            let (memory, answer) = spec_rr_get_interval(
                m,
                process,
                live,
                first,
                a[1],
                TimeWidth::Wide.spec_field(arch),
            );
            Some((Limits { memory, ..state }, answer))
        },
        _ => None,
    }
}

/// Answer `call` if it is one of this module's.
pub fn dispatch(
    call: Syscall,
    a: &[u64; 6],
    table: &mut Table,
    space: &mut AddressSpace,
    machine: &Machine,
    live: &Vec<Process>,
    process: &Process,
    mine: &mut FdTable,
    theirs: &mut Vec<FdTable>,
    arch: Arch,
) -> (answer: Option<Result<usize, Errno>>)
    requires
        old(table).wf(),
        old(space).wf(),
        old(mine).wf(),
        old(theirs)@.len() == live@.len(),
        forall|i: int| 0 <= i < old(theirs)@.len() ==> (#[trigger] old(theirs)@[i]).wf(),
    ensures
        final(table).wf(),
        final(space).wf(),
        final(space).same_layout(*old(space)),
        final(mine).wf(),
        final(mine)@ == old(mine)@,
        final(theirs)@.len() == live@.len(),
        forall|i: int|
            0 <= i < final(theirs)@.len() ==> (#[trigger] final(theirs)@[i]).wf()
                && final(theirs)@[i]@ == old(theirs)@[i]@,
        match spec_dispatch(
            (Limits {
                book: old(table)@,
                memory: old(space)@,
                mine: old(mine).limit,
                theirs: nofiles(old(theirs)@),
            }),
            *machine,
            *process,
            live@,
            call,
            a@,
            arch,
        ) {
            Some((after, result)) => {
                &&& answer == Some(result)
                &&& final(table)@ == after.book
                &&& final(space)@ == after.memory
                &&& final(mine).limit == after.mine
                &&& nofiles(final(theirs)@) == after.theirs
            },
            None => {
                &&& answer is None
                &&& final(table)@ == old(table)@
                &&& *final(space) == *old(space)
                &&& final(mine).limit == old(mine).limit
                &&& nofiles(final(theirs)@) == nofiles(old(theirs)@)
            },
        },
{
    let first: i32 = int_arg(a[0]);
    let resource: u32 = low_u32(a[0]);
    let length: u32 = low_u32(a[1]);
    match call {
        Syscall::Getrlimit => Some(
            sys_getrlimit(table, space, process, mine, resource, a[1], arch),
        ),
        Syscall::Setrlimit => Some(
            sys_setrlimit(table, space, live, process, mine, resource, a[1], arch),
        ),
        Syscall::Prlimit64 => Some(
            sys_prlimit64(
                table,
                space,
                live,
                process,
                mine,
                theirs,
                first,
                length,
                a[2],
                a[3],
            ),
        ),
        Syscall::SchedGetaffinity => Some(
            sys_sched_getaffinity(space, machine, live, process, first, length, a[2], arch),
        ),
        Syscall::SchedSetaffinity => Some(
            sys_sched_setaffinity(space, machine, live, process, first, length, a[2], arch),
        ),
        Syscall::SchedGetparam => Some(sys_sched_getparam(space, live, process, first, a[1])),
        Syscall::SchedSetparam => Some(sys_sched_setparam(space, live, process, first, a[1])),
        Syscall::SchedGetscheduler => Some(sys_sched_getscheduler(live, process, first)),
        Syscall::SchedSetscheduler => Some(
            sys_sched_setscheduler(space, live, process, first, int_arg(a[1]), a[2]),
        ),
        Syscall::SchedGetPriorityMax => Some(
            match priority_range(first) {
                Ok((_, max)) => Ok(max),
                Err(e) => Err(e),
            },
        ),
        Syscall::SchedGetPriorityMin => Some(
            match priority_range(first) {
                Ok((min, _)) => Ok(min),
                Err(e) => Err(e),
            },
        ),
        Syscall::SchedRrGetInterval => Some(
            sys_sched_rr_get_interval(
                space,
                live,
                process,
                first,
                a[1],
                TimeWidth::Native,
                arch,
            ),
        ),
        Syscall::SchedRrGetIntervalTime64 => Some(
            sys_sched_rr_get_interval(space, live, process, first, a[1], TimeWidth::Wide, arch),
        ),
        _ => None,
    }
}

// ---------------------------------------------------------------------------
// What limits and schedules are for
// ---------------------------------------------------------------------------

/// A limit told is the one that was set, or the default: eight mebibytes of
/// stack, and no end to anything else. Of open files it is what the descriptor
/// table keeps, and never above the hard one.
pub proof fn law_a_limit_is_what_was_set_or_the_default(kept: Kept, nofile: u32, resource: u32)
    requires
        kept.limits.len() == 16,
    ensures
        ({
            let answer = spec_limit(kept, nofile, resource);
            &&& answer is Ok <==> resource < 16
            &&& answer matches Err(e) ==> e == Errno::EINVAL
            &&& answer matches Ok(limit) ==> {
                let stored = kept.limits[resource as int];
                &&& resource != 7 ==> (stored matches Some(set) ==> limit == set)
                &&& resource == 3 && stored is None ==> limit.soft == 0x80_0000 && limit.hard
                    == u64::MAX
                &&& resource != 7 && resource != 3 && stored is None ==> limit.soft == u64::MAX
                    && limit.hard == u64::MAX
                &&& resource == 7 ==> limit.soft == nofile && limit.hard >= limit.soft
                &&& resource == 7 && stored is None && nofile <= 4096 ==> limit.hard == 4096
                &&& resource == 7 ==> (stored matches Some(set) ==> nofile <= set.hard ==> limit.hard
                    == set.hard)
            }
        }),
{
}

/// A limit is refused for a resource there is not, above its own hard one, and
/// for more open files than a table may have; else it may be set.
pub proof fn law_a_sound_limit_may_be_set(resource: u32, new: Limit)
    ensures
        limit_refused(resource, new) is None <==> resource < 16 && new.soft <= new.hard && (resource
            == 7 ==> new.hard <= 1_048_576),
        resource >= 16 || new.soft > new.hard ==> limit_refused(resource, new) == Some(
            Errno::EINVAL,
        ),
        resource == 7 && new.soft <= new.hard && new.hard > 1_048_576 ==> limit_refused(
            resource,
            new,
        ) == Some(Errno::EPERM),
{
}

/// A limit is told as two words, the soft one first; one that a word cannot say
/// is told as none at all.
pub proof fn law_a_limit_is_told_in_two_words(
    m: Memory,
    book: Book,
    process: Process,
    nofile: u32,
    resource: u32,
    at: u64,
)
    requires
        m.valid(),
        m.can_write(at as int, 16),
        spec_get(book, process.pid, process.started).limits.len() == 16,
        resource < 16,
    ensures
        ({
            let (after, result) = spec_getrlimit(
                m,
                book,
                process,
                nofile,
                resource,
                at,
                Arch::X86_64,
            );
            let limit = spec_limit(
                spec_get(book, process.pid, process.started),
                nofile,
                resource,
            )->Ok_0;
            &&& result == Ok::<usize, Errno>(0)
            &&& after.number(at as int, 8) == limit.soft
            &&& after.number(at + 8, 8) == limit.hard
        }),
{
    let limit = spec_limit(
        spec_get(book, process.pid, process.started),
        nofile,
        resource,
    )->Ok_0;
    let x = le_bytes(limit.soft as nat, 8);
    let y = le_bytes(limit.hard as nat, 8);
    crate::bytes::lemma_byte_spans();
    lemma_le_bytes_len(limit.soft as nat, 8);
    lemma_le_bytes_len(limit.hard as nat, 8);
    assert(m.can_write(at as int, 8) && m.can_write(at + 8, 8));
    let one = m.store(at as int, x);
    assert(one.bytes.dom() =~= m.bytes.dom());
    crate::uaccess::lemma_store_permissions(m, at as int, x, at + 8, 8);
    crate::uaccess::lemma_store_permissions(m, at as int, x, at as int, 8);
    crate::uaccess::law_a_number_is_read_back(m, at as int, limit.soft as nat, 8, 0);
    crate::uaccess::law_a_number_is_read_back(one, at + 8, limit.hard as nat, 8, 0);
    assert(one.can_read(at as int, 8)) by {
        assert forall|a: int| at <= a < at + 8 implies #[trigger] one.bytes.dom().contains(a) by {
            assert(m.writable.contains(a));
        }
    }
    crate::uaccess::lemma_read_after_store(one, at + 8, y, at as int, 8);
}

/// A limit that is set is read as two words, the soft one first, and is the one
/// kept; a refused one changes nothing.
pub proof fn law_a_limit_is_set_from_two_words(
    m: Memory,
    book: Book,
    live: Seq<Process>,
    process: Process,
    nofile: u32,
    resource: u32,
    at: u64,
)
    requires
        spec_get(book, process.pid, process.started).limits.len() == 16,
    ensures
        ({
            let (after, table, result) = spec_setrlimit(
                m,
                book,
                live,
                process,
                nofile,
                resource,
                at,
                Arch::X86_64,
            );
            let new = Limit {
                soft: m.number(at as int, 8) as u64,
                hard: m.number(at + 8, 8) as u64,
            };
            let kept = spec_get(after, process.pid, process.started);
            &&& result is Err ==> after == book && table == nofile
            &&& !m.can_read(at as int, 16) ==> result == Err::<usize, Errno>(Errno::EFAULT)
            &&& m.can_read(at as int, 16) && limit_refused(resource, new) is None ==> result
                == Ok::<usize, Errno>(0)
            &&& result is Ok ==> {
                &&& kept.limits[resource as int] == Some(new)
                &&& resource == 7 ==> table == new.soft
                &&& resource != 7 ==> table == nofile
                &&& forall|other: int|
                    0 <= other < 16 && other != resource ==> #[trigger] kept.limits[other]
                        == spec_get(book, process.pid, process.started).limits[other]
            }
        }),
{
}

/// `prlimit64` sets the limit of the process it names, and tells the one that
/// process had before.
pub proof fn law_a_limit_is_set_and_the_old_one_told(
    state: Limits,
    live: Seq<Process>,
    process: Process,
    resource: u32,
    new_at: u64,
    old_at: u64,
)
    requires
        state.memory.valid(),
        spec_get(state.book, process.pid, process.started).limits.len() == 16,
    ensures
        ({
            let (after, result) = spec_prlimit64(
                state,
                live,
                process,
                0,
                resource,
                new_at,
                old_at,
            );
            let before = spec_limit(
                spec_get(state.book, process.pid, process.started),
                state.mine,
                resource,
            );
            let kept = spec_get(after.book, process.pid, process.started);
            &&& resource >= 16 && (new_at == 0 || state.memory.can_read(new_at as int, 16))
                ==> result == Err::<usize, Errno>(Errno::EINVAL) && after == state
            &&& new_at == 0 ==> after.book == state.book && after.mine == state.mine
            &&& result is Ok && new_at != 0 ==> kept.limits[resource as int] == Some(
                Limit {
                    soft: state.memory.number(new_at as int, 8) as u64,
                    hard: state.memory.number(new_at + 8, 8) as u64,
                },
            )
            &&& result is Ok && new_at != 0 && resource == 7 ==> after.mine
                == kept.limits[7]->0.soft
            &&& result is Ok && old_at != 0 ==> after.memory.number(old_at as int, 8)
                == before->Ok_0.soft && after.memory.number(old_at + 8, 8) == before->Ok_0.hard
            &&& result is Ok && old_at == 0 ==> after.memory == state.memory
            &&& after.theirs == state.theirs
        }),
{
    let before = spec_limit(
        spec_get(state.book, process.pid, process.started),
        state.mine,
        resource,
    );
    if let Ok(limit) = before {
        let data = le_bytes(limit.soft as nat, 8) + le_bytes(limit.hard as nat, 8);
        crate::bytes::lemma_byte_spans();
        crate::bytes::lemma_le_round_trip(limit.soft as nat, 8);
        crate::bytes::lemma_le_round_trip(limit.hard as nat, 8);
        if state.memory.can_write(old_at as int, 16) {
            crate::uaccess::lemma_number_written(state.memory, old_at as int, data, 0, 8);
            crate::uaccess::lemma_number_written(state.memory, old_at as int, data, 8, 8);
            assert(data.subrange(0, 8) =~= le_bytes(limit.soft as nat, 8));
            assert(data.subrange(8, 16) =~= le_bytes(limit.hard as nat, 8));
        }
    }
}

/// A mask has room for every processor, in whole words, and for no word more.
pub proof fn law_a_mask_has_room_for_every_processor(count: usize, arch: Arch)
    ensures
        ({
            let bytes = spec_mask_bytes(count, arch);
            let word: int = if arch == Arch::Arm {
                4
            } else {
                8
            };
            &&& bytes % word == 0
            &&& count <= 8 * bytes < count + 8 * word
        }),
{
    if arch == Arch::Arm {
        assert(spec_mask_bytes(count, arch) == ((count + 31) / 32) * 4);
    } else {
        assert(spec_mask_bytes(count, arch) == ((count + 63) / 64) * 8);
    }
}

/// The processors that run are those that are online, each by its number.
pub proof fn law_the_running_are_the_online(cpus: Seq<Cpu>, n: int, number: usize)
    requires
        0 <= n <= cpus.len(),
    ensures
        running(cpus, n).contains(number) <==> exists|i: int|
            0 <= i < n && (#[trigger] cpus[i]).online && cpus[i].logical == number,
    decreases n,
{
    if n > 0 {
        law_the_running_are_the_online(cpus, n - 1, number);
        let before = running(cpus, n - 1);
        let all = running(cpus, n);
        if cpus[n - 1].online {
            assert(all == before.push(cpus[n - 1].logical));
            assert(all[before.len() as int] == cpus[n - 1].logical);
            if before.contains(number) {
                let k = choose|k: int| 0 <= k < before.len() && before[k] == number;
                assert(all[k] == number);
            }
            if all.contains(number) {
                let k = choose|k: int| 0 <= k < all.len() && all[k] == number;
                if k < before.len() {
                    assert(before[k] == number);
                }
            }
        }
        if exists|i: int| 0 <= i < n && (#[trigger] cpus[i]).online && cpus[i].logical == number {
            let i = choose|i: int|
                0 <= i < n && (#[trigger] cpus[i]).online && cpus[i].logical == number;
            if i < n - 1 {
                assert(before.contains(number));
            }
        }
    }
}

/// A processor is named by its bit: its byte by the eighth part of its number,
/// and the bit in that by the rest, lowest first.
pub proof fn law_a_processor_is_named_by_its_bit(mask: Seq<u8>, i: int)
    requires
        0 <= i < mask.len(),
    ensures
        names(mask, 8 * i) <==> mask[i] % 2 == 1,
        names(mask, 8 * i + 1) <==> mask[i] / 2 % 2 == 1,
        names(mask, 8 * i + 2) <==> mask[i] / 4 % 2 == 1,
        names(mask, 8 * i + 3) <==> mask[i] / 8 % 2 == 1,
        names(mask, 8 * i + 4) <==> mask[i] / 16 % 2 == 1,
        names(mask, 8 * i + 5) <==> mask[i] / 32 % 2 == 1,
        names(mask, 8 * i + 6) <==> mask[i] / 64 % 2 == 1,
        names(mask, 8 * i + 7) <==> mask[i] / 128 % 2 == 1,
{
}

/// `sched_getaffinity` answers the bytes it wrote, which are of the mask of the
/// running; a buffer too short for the processors is refused.
pub proof fn law_the_mask_written_is_of_the_running(
    m: Memory,
    machine: Machine,
    process: Process,
    live: Seq<Process>,
    pid: int,
    len: u32,
    at: u64,
    arch: Arch,
)
    ensures
        ({
            let (after, result) = spec_getaffinity(
                m,
                machine,
                process,
                live,
                pid,
                len,
                at,
                arch,
            );
            &&& 8 * len < machine.count ==> result == Err::<usize, Errno>(Errno::EINVAL)
            &&& arch != Arch::Arm && len % 8 != 0 ==> result == Err::<usize, Errno>(Errno::EINVAL)
            &&& arch == Arch::Arm && len % 4 != 0 ==> result == Err::<usize, Errno>(Errno::EINVAL)
            &&& result is Err ==> after == m
            &&& result matches Ok(size) ==> {
                &&& size <= len
                &&& size == len || size == spec_mask_bytes(machine.count, arch)
                &&& 8 * size >= machine.count
                &&& after == m.store(at as int, online_mask(spec_online(machine), size as nat))
            }
        }),
{
    law_a_mask_has_room_for_every_processor(machine.count, arch);
}

/// `sched_setaffinity` takes a mask exactly if it names a processor that runs.
pub proof fn law_a_mask_must_name_a_running_processor(
    m: Memory,
    machine: Machine,
    process: Process,
    live: Seq<Process>,
    len: u32,
    at: u64,
    arch: Arch,
    cpu: int,
)
    requires
        len <= spec_mask_bytes(machine.count, arch),
    ensures
        ({
            let result = spec_setaffinity(m, machine, process, live, 0, len, at, arch);
            let mask = m.read(at as int, len as nat);
            &&& !m.can_read(at as int, len as int) ==> result == Err::<usize, Errno>(Errno::EFAULT)
            &&& m.can_read(at as int, len as int) && names(mask, cpu) && is_online(
                spec_online(machine),
                cpu,
            ) ==> result == Ok::<usize, Errno>(0)
            &&& result is Ok ==> exists|k: int|
                0 <= k < spec_online(machine).len() && names(
                    mask,
                    #[trigger] spec_online(machine)[k] as int,
                )
        }),
{
    let online = spec_online(machine);
    if is_online(online, cpu) {
        let k = choose|k: int| 0 <= k < online.len() && online[k] == cpu;
        assert(online[k] as int == cpu);
    }
}

/// There is one policy, with no priority to it: it is told of every process,
/// and only it can be set.
pub proof fn law_there_is_one_policy(
    m: Memory,
    process: Process,
    live: Seq<Process>,
    pid: int,
    policy: int,
    at: u64,
)
    requires
        m.valid(),
    ensures
        spec_getscheduler(process, live, pid) matches Ok(n) ==> n == 0,
        pid < 0 ==> spec_getscheduler(process, live, pid) == Err::<usize, Errno>(Errno::EINVAL),
        pid == 0 ==> spec_getscheduler(process, live, pid) == Ok::<usize, Errno>(0),
        spec_setscheduler(m, process, live, pid, policy, at) is Ok ==> policy == 0 && pid >= 0 && at
            != 0 && m.can_read(at as int, 4) && m.number(at as int, 4) == 0,
        policy == 0 && pid == 0 && at != 0 && m.can_read(at as int, 4) && m.number(at as int, 4)
            == 0 ==> spec_setscheduler(m, process, live, pid, policy, at) == Ok::<usize, Errno>(0),
        pid == 0 && at != 0 && m.can_write(at as int, 4) ==> spec_getparam(
            m,
            process,
            live,
            pid,
            at,
        ).1 == Ok::<usize, Errno>(0) && spec_getparam(m, process, live, pid, at).0.number(
            at as int,
            4,
        ) == 0,
        at == 0 || pid < 0 ==> spec_getparam(m, process, live, pid, at).1 == Err::<usize, Errno>(
            Errno::EINVAL,
        ),
{
    crate::bytes::lemma_byte_spans();
    lemma_le_bytes_len(0, 4);
    if m.can_write(at as int, 4) {
        crate::uaccess::law_a_number_is_read_back(m, at as int, 0, 4, 0);
    }
}

/// A policy of real time has priorities from one to ninety-nine, and any other
/// there is only zero.
pub proof fn law_a_policy_has_its_priorities(policy: int)
    ensures
        spec_priority_range(policy) == Ok::<(usize, usize), Errno>((1, 99)) <==> policy == 1
            || policy == 2,
        spec_priority_range(policy) == Ok::<(usize, usize), Errno>((0, 0)) <==> policy == 0
            || policy == 3 || policy == 5 || policy == 6,
        spec_priority_range(policy) == Err::<(usize, usize), Errno>(Errno::EINVAL) <==> policy < 0
            || policy == 4 || policy > 6,
{
}

/// A call about limits takes its own registers, and those that only ask change
/// nothing but the memory they answer in.
pub proof fn law_asking_about_limits_changes_none(
    state: Limits,
    machine: Machine,
    process: Process,
    live: Seq<Process>,
    call: Syscall,
    a: Seq<u64>,
    arch: Arch,
)
    requires
        a.len() == 6,
    ensures
        spec_dispatch(state, machine, process, live, call, a, arch) matches Some((after, answer))
            ==> {
            &&& call != Syscall::Setrlimit && call != Syscall::Prlimit64 ==> after.book
                == state.book && after.mine == state.mine && after.theirs == state.theirs
            &&& call == Syscall::Setrlimit || call == Syscall::SchedSetaffinity || call
                == Syscall::SchedSetparam || call == Syscall::SchedSetscheduler || call
                == Syscall::SchedGetscheduler || call == Syscall::SchedGetPriorityMax || call
                == Syscall::SchedGetPriorityMin ==> after.memory == state.memory
            &&& call == Syscall::SchedGetPriorityMax && a[0] <= 6 ==> (answer matches Ok(n) ==> n
                == 99 || n == 0)
            &&& call == Syscall::SchedGetPriorityMax && (a[0] == 1 || a[0] == 2) ==> answer == Ok::<
                usize,
                Errno,
            >(99)
            &&& call == Syscall::SchedGetPriorityMin && (a[0] == 1 || a[0] == 2) ==> answer == Ok::<
                usize,
                Errno,
            >(1)
        },
{
}

/// A call is answered with its own registers: whom or what it names by the low
/// half of the first, a number by that of the second, and an address by the
/// whole of its own.
pub proof fn law_a_limits_call_takes_its_own_registers(
    state: Limits,
    machine: Machine,
    process: Process,
    live: Seq<Process>,
    call: Syscall,
    a: Seq<u64>,
    arch: Arch,
    first: int,
    second: int,
)
    requires
        a.len() == 6,
        (a[0] - first) % 0x1_0000_0000 == 0,
        (a[1] - second) % 0x1_0000_0000 == 0,
        0 <= first < 0x8000_0000,
        0 <= second < 0x8000_0000,
    ensures
        ({
            let told = spec_dispatch(state, machine, process, live, call, a, arch);
            let done = told.unwrap();
            let m = state.memory;
            &&& call == Syscall::Getrlimit ==> told is Some && (done.0.memory, done.1)
                == spec_getrlimit(m, state.book, process, state.mine, first as u32, a[1], arch)
                && done.0.book == state.book && done.0.mine == state.mine
            &&& call == Syscall::Setrlimit ==> told is Some && (
                done.0.book,
                done.0.mine,
                done.1,
            ) == spec_setrlimit(
                m,
                state.book,
                live,
                process,
                state.mine,
                first as u32,
                a[1],
                arch,
            ) && done.0.memory == m
            &&& call == Syscall::Prlimit64 ==> told == Some(
                spec_prlimit64(state, live, process, first, second as u32, a[2], a[3]),
            )
            &&& call == Syscall::SchedGetaffinity ==> told is Some && (
                done.0.memory,
                done.1,
            ) == spec_getaffinity(m, machine, process, live, first, second as u32, a[2], arch)
            &&& call == Syscall::SchedSetaffinity ==> told == Some(
                (
                    state,
                    spec_setaffinity(m, machine, process, live, first, second as u32, a[2], arch),
                ),
            )
            &&& call == Syscall::SchedSetparam ==> told == Some(
                (state, spec_setscheduler(m, process, live, first, 0, a[1])),
            )
            &&& call == Syscall::SchedSetscheduler ==> told == Some(
                (state, spec_setscheduler(m, process, live, first, second, a[2])),
            )
            &&& call == Syscall::SchedGetscheduler ==> told == Some(
                (state, spec_getscheduler(process, live, first)),
            )
            &&& call == Syscall::SchedGetparam ==> told is Some && (done.0.memory, done.1)
                == spec_getparam(m, process, live, first, a[1])
            &&& call == Syscall::SchedGetPriorityMax && (first == 1 || first == 2) ==> told == Some(
                (state, Ok::<usize, Errno>(99)),
            )
            &&& call == Syscall::SchedGetPriorityMin && (first == 1 || first == 2) ==> told == Some(
                (state, Ok::<usize, Errno>(1)),
            )
            &&& call == Syscall::SchedRrGetInterval && arch == Arch::Arm ==> told is Some && (
                done.0.memory,
                done.1,
            ) == spec_rr_get_interval(m, process, live, first, a[1], 4)
            &&& (call == Syscall::SchedRrGetInterval && arch != Arch::Arm) || call
                == Syscall::SchedRrGetIntervalTime64 ==> told is Some && (
                done.0.memory,
                done.1,
            ) == spec_rr_get_interval(m, process, live, first, a[1], 8)
        }),
{
}

} // verus!
