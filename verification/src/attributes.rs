//! What a process has said about itself that nothing acts on yet: its name,
//! its nice value, its I/O priority, its personality, its robust futex list,
//! its limits, and the switches `prctl` flips.
//!
//! A program that sets one reads it back, and concludes from anything else
//! that the call failed. So the values are kept and reported.
//!
//! They are kept in one table, by number *and* start time: numbers are used
//! again, and a new process that happens to get a dead one's number must not
//! have its nice value. Entries of processes that have gone are dropped when a
//! new one is added.

use vstd::prelude::*;

use crate::abi::{low_u32, signed_32, spec_int, spec_low_u32, Arch};
use crate::bytes::{le_bytes, lemma_le_bytes_len};
use crate::credentials::CAP_LAST_CAP;
use crate::errno::Errno;
use crate::nr::Syscall;
use crate::process::{find, of, spec_find, spec_of, spec_subject, subject, Process, Subject};
use crate::uaccess::{AddressSpace, CStr, CString, Memory};

verus! {

/// Bytes in a task's name, the terminator among them.
pub const TASK_COMM_LEN: usize = 16;

/// How many resources have a limit.
pub const RLIM_NLIMITS: usize = 16;

/// The highest signal number.
pub const NSIG: u64 = 64;

/// One resource limit.
#[derive(Clone, Copy, Debug, PartialEq, Eq, Structural)]
pub struct Limit {
    /// What the process is held to.
    pub soft: u64,
    /// How far it may raise `soft`.
    pub hard: u64,
}

/// Everything kept for one process.
#[derive(Clone, Copy, Debug, PartialEq, Eq)]
pub struct Attributes {
    /// The name that was set, NUL-padded. `None` until it is set, which reads
    /// as the program's file name.
    pub name: Option<[u8; 16]>,
    /// The signal asked for when the parent dies.
    pub parent_death_signal: u32,
    /// Whether the process may dump core.
    pub dumpable: bool,
    /// Whether it gave up gaining privileges through `execve`.
    pub no_new_privs: bool,
    /// Whether it reaps orphaned descendants.
    pub child_subreaper: bool,
    /// The nice value, -20 to 19.
    pub nice: i32,
    /// The I/O priority, if one was set.
    pub io_priority: Option<u32>,
    /// The execution domain.
    pub personality: u32,
    /// The head of the robust futex list.
    pub robust_list: u64,
    /// Limits that were set, by resource. `None` reads as the default.
    pub limits: [Option<Limit>; 16],
    /// Whether group 0 is a supplementary group.
    pub in_root_group: bool,
}

/// [`Attributes`] as a mathematical value.
#[verifier::ext_equal]
pub ghost struct Kept {
    pub name: Option<Seq<u8>>,
    pub parent_death_signal: u32,
    pub dumpable: bool,
    pub no_new_privs: bool,
    pub child_subreaper: bool,
    pub nice: int,
    pub io_priority: Option<u32>,
    pub personality: u32,
    pub robust_list: u64,
    pub limits: Seq<Option<Limit>>,
    pub in_root_group: bool,
}

impl Kept {
    /// What a process that has set nothing has.
    pub open spec fn fresh() -> Kept {
        Kept {
            name: None,
            parent_death_signal: 0,
            dumpable: true,
            no_new_privs: false,
            child_subreaper: false,
            nice: 0,
            io_priority: None,
            personality: 0,
            robust_list: 0,
            limits: Seq::new(RLIM_NLIMITS as nat, |i: int| None),
            in_root_group: true,
        }
    }

    /// A nice value is -20 to 19, a name is sixteen bytes with the last of
    /// them NUL, and every resource has its place.
    pub open spec fn wf(self) -> bool {
        &&& -20 <= self.nice <= 19
        &&& self.limits.len() == RLIM_NLIMITS
        &&& match self.name {
            Some(name) => name.len() == TASK_COMM_LEN && name[TASK_COMM_LEN - 1] == 0,
            None => true,
        }
    }
}

impl Attributes {
    /// The attributes as a mathematical value.
    pub open spec fn view(self) -> Kept {
        Kept {
            name: match self.name {
                Some(name) => Some(name@),
                None => None,
            },
            parent_death_signal: self.parent_death_signal,
            dumpable: self.dumpable,
            no_new_privs: self.no_new_privs,
            child_subreaper: self.child_subreaper,
            nice: self.nice as int,
            io_priority: self.io_priority,
            personality: self.personality,
            robust_list: self.robust_list,
            limits: self.limits@,
            in_root_group: self.in_root_group,
        }
    }
}

impl Default for Attributes {
    fn default() -> (fresh: Attributes)
        ensures
            fresh@ == Kept::fresh(),
            fresh@.wf(),
    {
        let limits: [Option<Limit>; 16] = [None; 16];
        let fresh = Attributes {
            name: None,
            parent_death_signal: 0,
            dumpable: true,
            no_new_privs: false,
            child_subreaper: false,
            nice: 0,
            io_priority: None,
            personality: 0,
            robust_list: 0,
            limits,
            in_root_group: true,
        };
        assert(fresh@.limits =~= Kept::fresh().limits);
        fresh
    }
}

/// What is kept for one process.
#[derive(Clone, Copy, Debug, PartialEq, Eq)]
pub struct Entry {
    /// The process's number.
    pub pid: u32,
    /// When it started.
    pub started: u64,
    /// What it said.
    pub attributes: Attributes,
}

/// The table: a number, with a start time, to attributes.
#[derive(Debug)]
pub struct Table {
    /// One entry for each number.
    pub entries: Vec<Entry>,
}

/// The table as a mathematical value.
pub type Book = Map<u32, (u64, Kept)>;

impl Table {
    /// No number has two entries, and each holds sound attributes.
    pub open spec fn wf(self) -> bool {
        &&& forall|i: int, j: int|
            0 <= i < self.entries@.len() && 0 <= j < self.entries@.len()
                && self.entries@[i].pid == self.entries@[j].pid ==> i == j
        &&& forall|i: int|
            0 <= i < self.entries@.len() ==> (#[trigger] self.entries@[i]).attributes@.wf()
    }

    /// Whether entry `i` is the one of `pid`.
    pub open spec fn holds(self, i: int, pid: u32) -> bool {
        0 <= i < self.entries@.len() && self.entries@[i].pid == pid
    }

    /// The table as a mathematical value.
    pub open spec fn view(self) -> Book {
        Map::new(
            |pid: u32| exists|i: int| self.holds(i, pid),
            |pid: u32|
                {
                    let entry = self.entries@[choose|i: int| self.holds(i, pid)];
                    (entry.started, entry.attributes@)
                },
        )
    }

    /// The entry at `i` is what the table says of its number.
    pub proof fn lemma_entry(self, i: int)
        requires
            self.wf(),
            0 <= i < self.entries@.len(),
        ensures
            self@.dom().contains(self.entries@[i].pid),
            self@[self.entries@[i].pid] == (
                self.entries@[i].started,
                self.entries@[i].attributes@,
            ),
    {
        assert(self.holds(i, self.entries@[i].pid));
    }

    /// A table with nothing in it.
    pub fn new() -> (table: Table)
        ensures
            table.wf(),
            table@ == Map::<u32, (u64, Kept)>::empty(),
    {
        let table = Table { entries: Vec::new() };
        assert(table@ =~= Map::<u32, (u64, Kept)>::empty());
        table
    }

    /// Where the entry of `pid` is.
    fn place(&self, pid: u32) -> (at: Option<usize>)
        ensures
            match at {
                Some(i) => self.holds(i as int, pid),
                None => forall|i: int| !self.holds(i, pid),
            },
    {
        let mut i: usize = 0;
        while i < self.entries.len()
            invariant
                i <= self.entries@.len(),
                forall|j: int| 0 <= j < i ==> self.entries@[j].pid != pid,
            decreases self.entries@.len() - i,
        {
            if self.entries[i].pid == pid {
                return Some(i);
            }
            i = i + 1;
        }
        None
    }
}

/// Whether the table knows the process `pid` that started at `started`.
pub open spec fn known(book: Book, pid: u32, started: u64) -> bool {
    book.dom().contains(pid) && book[pid].0 == started
}

/// What the process `pid` that started at `started` has set, or the defaults.
pub open spec fn spec_get(book: Book, pid: u32, started: u64) -> Kept {
    if known(book, pid, started) {
        book[pid].1
    } else {
        Kept::fresh()
    }
}

/// Whether the process `pid` that started at `started` is among the live.
pub open spec fn alive(live: Seq<Process>, pid: u32, started: u64) -> bool {
    match spec_find(live, pid as int, 0) {
        Some(i) => live[i].started == started,
        None => false,
    }
}

/// The table without the entries of processes that are gone.
pub open spec fn spec_prune(book: Book, live: Seq<Process>) -> Book {
    Map::new(
        |pid: u32| book.dom().contains(pid) && alive(live, pid, book[pid].0),
        |pid: u32| book[pid],
    )
}

/// The table once `kept` is what the process has; a new entry first drops
/// those of processes that are gone.
pub open spec fn spec_update(
    book: Book,
    live: Seq<Process>,
    pid: u32,
    started: u64,
    kept: Kept,
) -> Book {
    let room = if known(book, pid, started) {
        book
    } else {
        spec_prune(book, live)
    };
    room.insert(pid, (started, kept))
}

/// What `process` has set, or the defaults.
pub fn get(table: &Table, process: &Process) -> (attributes: Attributes)
    requires
        table.wf(),
    ensures
        attributes@ == spec_get(table@, process.pid, process.started),
        attributes@.wf(),
{
    match table.place(process.pid) {
        Some(i) => {
            proof {
                table.lemma_entry(i as int);
            }
            if table.entries[i].started == process.started {
                table.entries[i].attributes
            } else {
                Attributes::default()
            }
        },
        None => Attributes::default(),
    }
}

/// Whether the process of an entry still lives.
fn lives(live: &Vec<Process>, entry: &Entry) -> (yes: bool)
    ensures
        yes == alive(live@, entry.pid, entry.started),
{
    match find(live, entry.pid) {
        Some(i) => live[i].started == entry.started,
        None => false,
    }
}

/// Drop the entries of processes that are gone.
pub fn prune(table: &mut Table, live: &Vec<Process>)
    requires
        old(table).wf(),
    ensures
        final(table).wf(),
        final(table)@ == spec_prune(old(table)@, live@),
{
    let ghost before = *table;
    let mut kept: Vec<Entry> = Vec::new();
    let ghost mut from: Seq<int> = Seq::empty();
    let mut i: usize = 0;
    while i < table.entries.len()
        invariant
            *table == before,
            before.wf(),
            i <= before.entries@.len(),
            from.len() == kept@.len(),
            forall|k: int|
                0 <= k < kept@.len() ==> {
                    &&& 0 <= #[trigger] from[k] < i
                    &&& kept@[k] == before.entries@[from[k]]
                    &&& alive(live@, kept@[k].pid, kept@[k].started)
                },
            forall|k: int, l: int| 0 <= k < l < from.len() ==> from[k] < from[l],
            forall|j: int|
                0 <= j < i && alive(
                    live@,
                    (#[trigger] before.entries@[j]).pid,
                    before.entries@[j].started,
                ) ==> from.contains(j),
        decreases before.entries@.len() - i,
    {
        let entry = table.entries[i];
        let ghost earlier = from;
        if lives(live, &entry) {
            kept.push(entry);
            proof {
                from = from.push(i as int);
                assert(from[from.len() - 1] == i);
            }
        }
        proof {
            assert forall|j: int|
                0 <= j < i + 1 && alive(
                    live@,
                    (#[trigger] before.entries@[j]).pid,
                    before.entries@[j].started,
                ) implies from.contains(j) by {
                if j < i {
                    assert(earlier.contains(j));
                    let k = choose|k: int| 0 <= k < earlier.len() && earlier[k] == j;
                    assert(from[k] == j);
                }
            }
        }
        i = i + 1;
    }
    table.entries = kept;
    proof {
        let after = *table;
        assert forall|a: int, b: int|
            0 <= a < after.entries@.len() && 0 <= b < after.entries@.len()
                && after.entries@[a].pid == after.entries@[b].pid implies a == b by {
            assert(from[a] == from[b]);
        }
        assert(after.wf()) by {
            assert forall|k: int| 0 <= k < after.entries@.len() implies (
            #[trigger] after.entries@[k]).attributes@.wf() by {
                assert(0 <= from[k]);
            }
        }
        assert forall|pid: u32| #[trigger]
            after@.dom().contains(pid) == spec_prune(before@, live@).dom().contains(pid) && (
            after@.dom().contains(pid) ==> after@[pid] == spec_prune(before@, live@)[pid]) by {
            if after@.dom().contains(pid) {
                let k = choose|k: int| after.holds(k, pid);
                after.lemma_entry(k);
                assert(0 <= from[k]);
                before.lemma_entry(from[k]);
            }
            if spec_prune(before@, live@).dom().contains(pid) {
                let j = choose|j: int| before.holds(j, pid);
                before.lemma_entry(j);
                assert(alive(live@, before.entries@[j].pid, before.entries@[j].started));
                assert(from.contains(j));
                let k = choose|k: int| 0 <= k < from.len() && from[k] == j;
                after.lemma_entry(k);
            }
        }
        assert(after@ =~= spec_prune(before@, live@));
    }
}

/// Make `attributes` what is kept for `process`.
pub fn update(table: &mut Table, live: &Vec<Process>, process: &Process, attributes: Attributes)
    requires
        old(table).wf(),
        attributes@.wf(),
    ensures
        final(table).wf(),
        final(table)@ == spec_update(
            old(table)@,
            live@,
            process.pid,
            process.started,
            attributes@,
        ),
{
    let pid: u32 = process.pid;
    let started: u64 = process.started;
    let ghost first = *table;
    let same = match table.place(pid) {
        Some(i) => {
            proof {
                table.lemma_entry(i as int);
            }
            table.entries[i].started == started
        },
        None => false,
    };
    if !same {
        prune(table, live);
    }
    let ghost before = *table;
    let entry = Entry { pid, started, attributes };
    let at: usize = match table.place(pid) {
        Some(i) => {
            table.entries.set(i, entry);
            i
        },
        None => {
            table.entries.push(entry);
            table.entries.len() - 1
        },
    };
    proof {
        let after = *table;
        assert(after.entries@[at as int] == entry);
        assert forall|k: int| 0 <= k < after.entries@.len() && k != at implies (
        #[trigger] after.entries@[k]).pid != pid && k < before.entries@.len() && after.entries@[k]
            == before.entries@[k] by {
            if before.entries@[k].pid == pid {
                assert(before.holds(k, pid));
            }
        }
        assert(after.wf());
        after.lemma_entry(at as int);
        assert forall|q: u32| q != pid implies #[trigger] after@.dom().contains(q)
            == before@.dom().contains(q) && (after@.dom().contains(q) ==> after@[q]
            == before@[q]) by {
            if after@.dom().contains(q) {
                let k = choose|k: int| after.holds(k, q);
                after.lemma_entry(k);
                assert(before.holds(k, q));
                before.lemma_entry(k);
            }
            if before@.dom().contains(q) {
                let k = choose|k: int| before.holds(k, q);
                before.lemma_entry(k);
                assert(after.holds(k, q));
                after.lemma_entry(k);
            }
        }
        assert(after@ =~= before@.insert(pid, (started, attributes@)));
    }
}

/// What a process set is what it reads back.
pub proof fn law_what_is_set_is_read_back(
    book: Book,
    live: Seq<Process>,
    pid: u32,
    started: u64,
    kept: Kept,
)
    ensures
        spec_get(spec_update(book, live, pid, started, kept), pid, started) == kept,
{
}

/// Setting something for one process changes nothing another live process
/// reads.
pub proof fn law_others_keep_what_they_set(
    book: Book,
    live: Seq<Process>,
    pid: u32,
    started: u64,
    kept: Kept,
    other: u32,
    since: u64,
)
    requires
        other != pid,
        alive(live, other, since),
    ensures
        spec_get(spec_update(book, live, pid, started, kept), other, since) == spec_get(
            book,
            other,
            since,
        ),
{
}

/// A process that gets a number used before starts from the defaults.
pub proof fn law_a_reused_number_starts_afresh(
    book: Book,
    live: Seq<Process>,
    pid: u32,
    started: u64,
    kept: Kept,
    later: u64,
)
    requires
        later != started,
    ensures
        spec_get(spec_update(book, live, pid, started, kept), pid, later) == Kept::fresh(),
{
}

/// A new entry leaves no others but those of live processes: the table is as
/// long as the number of processes that have changed something.
pub proof fn law_the_dead_are_dropped(
    book: Book,
    live: Seq<Process>,
    pid: u32,
    started: u64,
    kept: Kept,
    other: u32,
)
    requires
        !known(book, pid, started),
        other != pid,
        spec_update(book, live, pid, started, kept).dom().contains(other),
    ensures
        alive(live, other, book[other].0),
{
}

/// A `pid_t` or `int` argument: 32 bits, signed, whatever the register width.
pub fn int_arg(value: u64) -> (out: i32)
    ensures
        out == spec_int(value as int),
{
    signed_32(low_u32(value))
}

/// A register narrowed to the machine's word.
pub open spec fn spec_ulong(value: u64, arch: Arch) -> u64 {
    match arch {
        Arch::Arm => spec_low_u32(value as int) as u64,
        _ => value,
    }
}

/// An `unsigned long` argument: the register narrowed to the machine's word,
/// so that a 32-bit caller's stale upper half means nothing.
pub fn ulong(value: u64, arch: Arch) -> (out: u64)
    ensures
        out == spec_ulong(value, arch),
{
    match arch {
        Arch::Arm => low_u32(value) as u64,
        _ => value,
    }
}

// ---------------------------------------------------------------------------
// prctl
// ---------------------------------------------------------------------------

/// Set the signal sent when the parent dies.
pub const PR_SET_PDEATHSIG: i32 = 1;

/// Read it back, through a pointer to an `int`.
pub const PR_GET_PDEATHSIG: i32 = 2;

/// Whether the process may dump core, as the return value.
pub const PR_GET_DUMPABLE: i32 = 3;

/// Set it: 0 or 1 only.
pub const PR_SET_DUMPABLE: i32 = 4;

/// Set the task's name.
pub const PR_SET_NAME: i32 = 15;

/// Read the task's name into a 16-byte buffer.
pub const PR_GET_NAME: i32 = 16;

/// Whether a capability is in the bounding set.
pub const PR_CAPBSET_READ: i32 = 23;

/// Mark the process as a reaper of orphaned descendants.
pub const PR_SET_CHILD_SUBREAPER: i32 = 36;

/// Read that mark, through a pointer to an `int`.
pub const PR_GET_CHILD_SUBREAPER: i32 = 37;

/// Give up gaining privileges through `execve`, irrevocably.
pub const PR_SET_NO_NEW_PRIVS: i32 = 38;

/// Whether that was done, as the return value.
pub const PR_GET_NO_NEW_PRIVS: i32 = 39;

/// At most fifteen bytes as a task's name: NUL-padded to sixteen.
pub open spec fn padded(bytes: Seq<u8>) -> Seq<u8> {
    Seq::new(
        TASK_COMM_LEN as nat,
        |i: int|
            if i < bytes.len() && i < TASK_COMM_LEN - 1 {
                bytes[i]
            } else {
                0u8
            },
    )
}

/// At most fifteen bytes as a task's name.
fn pad(bytes: &[u8]) -> (name: [u8; 16])
    ensures
        name@ == padded(bytes@),
{
    let mut name: [u8; 16] = [0; 16];
    let mut i: usize = 0;
    while i < bytes.len() && i < TASK_COMM_LEN - 1
        invariant
            i <= bytes@.len(),
            i <= TASK_COMM_LEN - 1,
            name@.len() == TASK_COMM_LEN,
            forall|j: int| 0 <= j < i ==> name@[j] == bytes@[j],
            forall|j: int| i <= j < TASK_COMM_LEN ==> name@[j] == 0,
        decreases bytes@.len() - i,
    {
        name[i] = bytes[i];
        i = i + 1;
    }
    assert(name@ =~= padded(bytes@));
    name
}

/// The name at `at`: up to fifteen bytes, stopping at a NUL; no byte past the
/// NUL has to be readable.
pub open spec fn spec_read_name(m: Memory, at: u64) -> Result<Seq<u8>, Errno> {
    match m.cstr(at as int, (TASK_COMM_LEN - 1) as nat) {
        CStr::Complete(bytes) => Ok(padded(bytes)),
        CStr::TooLong => Ok(padded(m.read(at as int, (TASK_COMM_LEN - 1) as nat))),
        CStr::Fault => Err(Errno::EFAULT),
    }
}

/// A search that met no NUL and no fault has read every byte.
proof fn lemma_too_long(m: Memory, at: int, limit: nat)
    requires
        m.cstr(at, limit) is TooLong,
    ensures
        m.can_read(at, limit as int),
    decreases limit,
{
    if limit > 0 {
        lemma_too_long(m, at + 1, (limit - 1) as nat);
        assert forall|a: int| at <= a < at + limit implies #[trigger] m.bytes.dom().contains(a) by {
            if a > at {
                assert(at + 1 <= a < at + 1 + (limit - 1));
            }
        }
    }
}

/// Read a name: up to fifteen bytes, stopping at a NUL, and never touching a
/// byte past the NUL. A name at the very end of a mapping is legal.
fn read_name(space: &AddressSpace, at: u64) -> (name: Result<[u8; 16], Errno>)
    requires
        space.wf(),
    ensures
        match name {
            Ok(bytes) => spec_read_name(space@, at) == Ok::<Seq<u8>, Errno>(bytes@),
            Err(e) => spec_read_name(space@, at) == Err::<Seq<u8>, Errno>(e),
        },
{
    match space.copy_cstr_from_user(at, TASK_COMM_LEN - 1) {
        CString::Complete(bytes) => Ok(pad(bytes.as_slice())),
        CString::TooLong => {
            proof {
                lemma_too_long(space@, at as int, (TASK_COMM_LEN - 1) as nat);
            }
            let bytes = space.copy_from_user(at, TASK_COMM_LEN - 1)?;
            Ok(pad(bytes.as_slice()))
        },
        CString::Fault => Err(Errno::EFAULT),
    }
}

/// The name a process reports: the one set, or the program's file name.
pub open spec fn spec_name_of(book: Book, process: Process) -> Seq<u8> {
    match spec_get(book, process.pid, process.started).name {
        Some(name) => name,
        None => padded(process.comm@),
    }
}

/// The name `PR_GET_NAME` reports: the one set, or the program's file name.
pub fn name_of(table: &Table, process: &Process) -> (name: [u8; 16])
    requires
        table.wf(),
    ensures
        name@ == spec_name_of(table@, *process),
{
    match get(table, process).name {
        Some(name) => name,
        None => pad(process.comm.as_slice()),
    }
}

/// The answer that is a switch.
pub open spec fn flag(on: bool) -> usize {
    if on {
        1
    } else {
        0
    }
}

/// What writing a 32-bit word at `at` comes to, as a call's outcome.
pub open spec fn told_u32(m: Memory, at: u64, v: u32) -> (Memory, Result<usize, Errno>) {
    match m.put(at as int, le_bytes(v as nat, 4)) {
        Ok(after) => (after, Ok(0)),
        Err(e) => (m, Err(e)),
    }
}

/// What `prctl` changes in what is kept for the process: `None` for an option
/// that changes nothing or is refused.
pub open spec fn prctl_kept(m: Memory, kept: Kept, option: int, a: Seq<u64>) -> Option<Kept> {
    if option == PR_SET_PDEATHSIG && a[0] <= NSIG {
        Some(Kept { parent_death_signal: a[0] as u32, ..kept })
    } else if option == PR_SET_DUMPABLE && a[0] <= 1 {
        Some(Kept { dumpable: a[0] == 1, ..kept })
    } else if option == PR_SET_NAME {
        match spec_read_name(m, a[0]) {
            Ok(name) => Some(Kept { name: Some(name), ..kept }),
            Err(_) => None,
        }
    } else if option == PR_SET_CHILD_SUBREAPER {
        Some(Kept { child_subreaper: a[0] != 0, ..kept })
    } else if option == PR_SET_NO_NEW_PRIVS && a[0] == 1 && a[1] == 0 && a[2] == 0 && a[3] == 0 {
        Some(Kept { no_new_privs: true, ..kept })
    } else {
        None
    }
}

/// What `prctl` does to memory, and its answer.
pub open spec fn prctl_answer(m: Memory, book: Book, process: Process, option: int, a: Seq<u64>) -> (
    Memory,
    Result<usize, Errno>,
) {
    let kept = spec_get(book, process.pid, process.started);
    if option == PR_GET_PDEATHSIG {
        told_u32(m, a[0], kept.parent_death_signal)
    } else if option == PR_GET_DUMPABLE {
        (m, Ok(flag(kept.dumpable)))
    } else if option == PR_SET_NAME {
        match spec_read_name(m, a[0]) {
            Ok(_) => (m, Ok(0)),
            Err(e) => (m, Err(e)),
        }
    } else if option == PR_GET_NAME {
        match m.put(a[0] as int, spec_name_of(book, process)) {
            Ok(after) => (after, Ok(0)),
            Err(e) => (m, Err(e)),
        }
    } else if option == PR_CAPBSET_READ && a[0] <= CAP_LAST_CAP {
        (m, Ok(1))
    } else if option == PR_GET_CHILD_SUBREAPER {
        told_u32(m, a[0], flag(kept.child_subreaper) as u32)
    } else if option == PR_GET_NO_NEW_PRIVS && a[0] == 0 && a[1] == 0 && a[2] == 0 && a[3] == 0 {
        (m, Ok(flag(kept.no_new_privs)))
    } else if prctl_kept(m, kept, option, a) is Some {
        (m, Ok(0))
    } else {
        (m, Err(Errno::EINVAL))
    }
}

/// What `prctl` leaves in the table.
pub open spec fn prctl_book(
    m: Memory,
    book: Book,
    live: Seq<Process>,
    process: Process,
    option: int,
    a: Seq<u64>,
) -> Book {
    let kept = spec_get(book, process.pid, process.started);
    match prctl_kept(m, kept, option, a) {
        Some(new) => spec_update(book, live, process.pid, process.started, new),
        None => book,
    }
}

/// Four registers narrowed to the machine's word.
pub open spec fn narrowed(a: Seq<u64>, arch: Arch) -> Seq<u64> {
    a.map(|i: int, v: u64| spec_ulong(v, arch))
}

/// `prctl`.
///
/// Every option it does not know is `EINVAL`, and so is a signal above
/// [`NSIG`], a dumpable value above one, a capability above
/// [`CAP_LAST_CAP`], and anything but exactly `1` and zeros, or zeros, for the
/// two options about new privileges.
pub fn sys_prctl(
    table: &mut Table,
    space: &mut AddressSpace,
    live: &Vec<Process>,
    process: &Process,
    option: i32,
    args: [u64; 4],
    arch: Arch,
) -> (result: Result<usize, Errno>)
    requires
        old(table).wf(),
        old(space).wf(),
    ensures
        final(table).wf(),
        final(space).wf(),
        final(space).same_layout(*old(space)),
        (final(space)@, result) == prctl_answer(
            old(space)@,
            old(table)@,
            *process,
            option as int,
            narrowed(args@, arch),
        ),
        final(table)@ == prctl_book(
            old(space)@,
            old(table)@,
            live@,
            *process,
            option as int,
            narrowed(args@, arch),
        ),
{
    let arg2: u64 = ulong(args[0], arch);
    let arg3: u64 = ulong(args[1], arch);
    let arg4: u64 = ulong(args[2], arch);
    let arg5: u64 = ulong(args[3], arch);
    let ghost a = narrowed(args@, arch);
    assert(a[0] == arg2 && a[1] == arg3 && a[2] == arg4 && a[3] == arg5);
    let mut kept = get(table, process);
    if option == PR_SET_PDEATHSIG {
        if arg2 > NSIG {
            return Err(Errno::EINVAL);
        }
        kept.parent_death_signal = arg2 as u32;
        update(table, live, process, kept);
        Ok(0)
    } else if option == PR_GET_PDEATHSIG {
        proof {
            lemma_le_bytes_len(kept.parent_death_signal as nat, 4);
        }
        space.put_u32(arg2, kept.parent_death_signal)?;
        Ok(0)
    } else if option == PR_GET_DUMPABLE {
        Ok(
            if kept.dumpable {
                1
            } else {
                0
            },
        )
    } else if option == PR_SET_DUMPABLE {
        if arg2 > 1 {
            return Err(Errno::EINVAL);
        }
        kept.dumpable = arg2 == 1;
        update(table, live, process, kept);
        Ok(0)
    } else if option == PR_SET_NAME {
        let name = read_name(space, arg2)?;
        kept.name = Some(name);
        update(table, live, process, kept);
        Ok(0)
    } else if option == PR_GET_NAME {
        let name = name_of(table, process);
        space.copy_to_user(arg2, &name)?;
        Ok(0)
    } else if option == PR_CAPBSET_READ {
        if arg2 <= CAP_LAST_CAP as u64 {
            Ok(1)
        } else {
            Err(Errno::EINVAL)
        }
    } else if option == PR_SET_CHILD_SUBREAPER {
        kept.child_subreaper = arg2 != 0;
        update(table, live, process, kept);
        Ok(0)
    } else if option == PR_GET_CHILD_SUBREAPER {
        let reaper: u32 = if kept.child_subreaper {
            1
        } else {
            0
        };
        proof {
            lemma_le_bytes_len(reaper as nat, 4);
        }
        space.put_u32(arg2, reaper)?;
        Ok(0)
    } else if option == PR_SET_NO_NEW_PRIVS {
        if arg2 != 1 || arg3 != 0 || arg4 != 0 || arg5 != 0 {
            return Err(Errno::EINVAL);
        }
        kept.no_new_privs = true;
        update(table, live, process, kept);
        Ok(0)
    } else if option == PR_GET_NO_NEW_PRIVS {
        if arg2 != 0 || arg3 != 0 || arg4 != 0 || arg5 != 0 {
            return Err(Errno::EINVAL);
        }
        Ok(
            if kept.no_new_privs {
                1
            } else {
                0
            },
        )
    } else {
        Err(Errno::EINVAL)
    }
}

/// Giving up new privileges is for good: no `prctl` clears it.
pub proof fn law_no_new_privs_is_never_cleared(
    m: Memory,
    book: Book,
    live: Seq<Process>,
    process: Process,
    option: int,
    a: Seq<u64>,
)
    requires
        spec_get(book, process.pid, process.started).no_new_privs,
    ensures
        spec_get(
            prctl_book(m, book, live, process, option, a),
            process.pid,
            process.started,
        ).no_new_privs,
{
}

/// The name a process set, cut to fifteen bytes, is the name it is told, NUL
/// behind it.
pub proof fn law_a_name_round_trips(
    m: Memory,
    book: Book,
    live: Seq<Process>,
    process: Process,
    a: Seq<u64>,
)
    requires
        prctl_answer(m, book, process, PR_SET_NAME as int, a).1 is Ok,
    ensures
        ({
            let name = spec_name_of(
                prctl_book(m, book, live, process, PR_SET_NAME as int, a),
                process,
            );
            &&& spec_read_name(m, a[0]) == Ok::<Seq<u8>, Errno>(name)
            &&& name.len() == TASK_COMM_LEN
            &&& name[TASK_COMM_LEN - 1] == 0
        }),
{
}

// ---------------------------------------------------------------------------
// Personality and the robust list
// ---------------------------------------------------------------------------

/// `personality`: report the execution domain, and change it unless asked
/// only to report, with all bits set. The old one is the answer.
pub fn sys_personality(table: &mut Table, live: &Vec<Process>, process: &Process, persona: u32) -> (
    answer: usize)
    requires
        old(table).wf(),
    ensures
        final(table).wf(),
        answer == spec_get(old(table)@, process.pid, process.started).personality,
        final(table)@ == spec_personality(old(table)@, live@, *process, persona),
{
    let mut kept = get(table, process);
    let before: u32 = kept.personality;
    if persona != 0xFFFF_FFFF {
        kept.personality = persona;
        update(table, live, process, kept);
    }
    before as usize
}

/// What `personality` leaves in the table.
pub open spec fn spec_personality(
    book: Book,
    live: Seq<Process>,
    process: Process,
    persona: u32,
) -> Book {
    let kept = spec_get(book, process.pid, process.started);
    if persona == 0xFFFF_FFFF {
        book
    } else {
        spec_update(
            book,
            live,
            process.pid,
            process.started,
            Kept { personality: persona, ..kept },
        )
    }
}

/// Bytes in the head of a robust list: two pointers and a `long`.
pub open spec fn spec_robust_list_head(arch: Arch) -> u64 {
    (3 * arch.spec_word()) as u64
}

/// Bytes in the head of a robust list.
fn robust_list_head(arch: Arch) -> (n: u64)
    ensures
        n == spec_robust_list_head(arch),
{
    3 * arch.word() as u64
}

/// What `set_robust_list` leaves in the table, and its answer.
pub open spec fn spec_set_robust_list(
    book: Book,
    live: Seq<Process>,
    process: Process,
    head: u64,
    len: u64,
    arch: Arch,
) -> (Book, Result<usize, Errno>) {
    let kept = spec_get(book, process.pid, process.started);
    if spec_ulong(len, arch) != spec_robust_list_head(arch) {
        (book, Err(Errno::EINVAL))
    } else {
        (
            spec_update(
                book,
                live,
                process.pid,
                process.started,
                Kept { robust_list: spec_ulong(head, arch), ..kept },
            ),
            Ok(0),
        )
    }
}

/// `set_robust_list`: record the head, after insisting on the size.
pub fn sys_set_robust_list(
    table: &mut Table,
    live: &Vec<Process>,
    process: &Process,
    head: u64,
    len: u64,
    arch: Arch,
) -> (result: Result<usize, Errno>)
    requires
        old(table).wf(),
    ensures
        final(table).wf(),
        (final(table)@, result) == spec_set_robust_list(
            old(table)@,
            live@,
            *process,
            head,
            len,
            arch,
        ),
{
    if ulong(len, arch) != robust_list_head(arch) {
        return Err(Errno::EINVAL);
    }
    let mut kept = get(table, process);
    kept.robust_list = ulong(head, arch);
    update(table, live, process, kept);
    Ok(0)
}

/// The table once the process has no robust list any more.
pub open spec fn spec_forget_robust_list(book: Book, live: Seq<Process>, process: Process) -> Book {
    let kept = spec_get(book, process.pid, process.started);
    spec_update(
        book,
        live,
        process.pid,
        process.started,
        Kept { robust_list: 0, ..kept },
    )
}

/// Forget the robust list: it was in the memory a new program replaces.
pub fn forget_robust_list(table: &mut Table, live: &Vec<Process>, process: &Process)
    requires
        old(table).wf(),
    ensures
        final(table).wf(),
        final(table)@ == spec_forget_robust_list(old(table)@, live@, *process),
{
    let mut kept = get(table, process);
    kept.robust_list = 0;
    update(table, live, process, kept);
}

/// A process that has forgotten its robust list has none, and everything else
/// it had.
pub proof fn law_a_forgotten_robust_list_is_gone(book: Book, live: Seq<Process>, process: Process)
    ensures
        ({
            let before = spec_get(book, process.pid, process.started);
            let after = spec_get(
                spec_forget_robust_list(book, live, process),
                process.pid,
                process.started,
            );
            after == (Kept { robust_list: 0, ..before })
        }),
{
}

/// What `get_robust_list` does to memory, and its answer.
pub open spec fn spec_get_robust_list(
    m: Memory,
    book: Book,
    live: Seq<Process>,
    process: Process,
    pid: int,
    head_ptr: u64,
    len_ptr: u64,
    arch: Arch,
) -> (Memory, Result<usize, Errno>) {
    let word = arch.spec_word();
    match spec_subject(process, live, pid) {
        Err(e) => (m, Err(e)),
        Ok(named) => {
            let subject = spec_of(process, live, named);
            let head = spec_get(book, subject.pid, subject.started).robust_list;
            match m.put(len_ptr as int, le_bytes(spec_robust_list_head(arch) as nat, word)) {
                Err(e) => (m, Err(e)),
                Ok(told) => match told.put(head_ptr as int, le_bytes(head as nat, word)) {
                    Err(e) => (told, Err(e)),
                    Ok(after) => (after, Ok(0)),
                },
            }
        },
    }
}

/// `get_robust_list`: the size through `len_ptr`, then the head through
/// `head_ptr`, both native words.
pub fn sys_get_robust_list(
    table: &Table,
    space: &mut AddressSpace,
    live: &Vec<Process>,
    process: &Process,
    pid: i32,
    head_ptr: u64,
    len_ptr: u64,
    arch: Arch,
) -> (result: Result<usize, Errno>)
    requires
        table.wf(),
        old(space).wf(),
    ensures
        final(space).wf(),
        final(space).same_layout(*old(space)),
        (final(space)@, result) == spec_get_robust_list(
            old(space)@,
            table@,
            live@,
            *process,
            pid as int,
            head_ptr,
            len_ptr,
            arch,
        ),
{
    let named = subject(process, live, pid)?;
    let head: u64 = get(table, of(process, live, named)).robust_list;
    let word: usize = arch.word();
    let size: u64 = robust_list_head(arch);
    proof {
        lemma_le_bytes_len(size as nat, word as nat);
        lemma_le_bytes_len(head as nat, word as nat);
    }
    space.put_number(len_ptr, size, word)?;
    space.put_number(head_ptr, head, word)?;
    Ok(0)
}

// ---------------------------------------------------------------------------
// Priorities
// ---------------------------------------------------------------------------

/// One process.
pub const PRIO_PROCESS: i32 = 0;

/// Every process of a group.
pub const PRIO_PGRP: i32 = 1;

/// Every process of a user.
pub const PRIO_USER: i32 = 2;

/// The first `n` live processes that are in `group`, or all of them without
/// one.
pub open spec fn members(live: Seq<Process>, group: Option<u32>, n: int) -> Seq<Subject>
    decreases n,
{
    if n <= 0 {
        Seq::empty()
    } else {
        let before = members(live, group, n - 1);
        if group is None || group == Some(live[n - 1].pgid) {
            before.push(Subject::Other((n - 1) as usize))
        } else {
            before
        }
    }
}

/// The live processes in `group`, or all of them without one.
fn gather(live: &Vec<Process>, group: Option<u32>) -> (named: Vec<Subject>)
    ensures
        named@ == members(live@, group, live@.len() as int),
        forall|k: int|
            0 <= k < named@.len() ==> (#[trigger] named@[k] matches Subject::Other(i) && i
                < live@.len()),
{
    let mut named: Vec<Subject> = Vec::new();
    let mut i: usize = 0;
    while i < live.len()
        invariant
            i <= live@.len(),
            named@ == members(live@, group, i as int),
            forall|k: int|
                0 <= k < named@.len() ==> (#[trigger] named@[k] matches Subject::Other(j) && j
                    < live@.len()),
        decreases live@.len() - i,
    {
        let wanted = match group {
            None => true,
            Some(group) => live[i].pgid == group,
        };
        if wanted {
            named.push(Subject::Other(i));
        }
        i = i + 1;
    }
    named
}

/// The processes a `which`/`who` pair names.
///
/// One process; every live process in a process group, the caller's own for
/// group 0; or every process of a user, which is all of them for user 0 and
/// none for any other. `EINVAL` for any other `which`.
pub open spec fn spec_named_by(process: Process, live: Seq<Process>, which: int, who: int) -> Result<
    Seq<Subject>,
    Errno,
> {
    if which == PRIO_PROCESS {
        match spec_subject(process, live, who) {
            Ok(subject) => Ok(seq![subject]),
            Err(_) => Ok(Seq::empty()),
        }
    } else if which == PRIO_PGRP {
        if who < 0 {
            Ok(Seq::empty())
        } else {
            let group = if who == 0 {
                process.pgid
            } else {
                who as u32
            };
            Ok(members(live, Some(group), live.len() as int))
        }
    } else if which == PRIO_USER {
        if who == 0 {
            Ok(members(live, None, live.len() as int))
        } else {
            Ok(Seq::empty())
        }
    } else {
        Err(Errno::EINVAL)
    }
}

/// Whether every one of `named` is there.
pub open spec fn in_reach(named: Seq<Subject>, live: Seq<Process>) -> bool {
    forall|k: int|
        0 <= k < named.len() ==> match #[trigger] named[k] {
            Subject::Caller => true,
            Subject::Other(i) => i < live.len(),
        }
}

/// The processes a `which`/`who` pair names. None of them is the caller's to
/// turn into `ESRCH`.
fn named_by(process: &Process, live: &Vec<Process>, which: i32, who: i32) -> (named: Result<
    Vec<Subject>,
    Errno,
>)
    ensures
        match named {
            Ok(list) => {
                &&& spec_named_by(*process, live@, which as int, who as int) == Ok::<
                    Seq<Subject>,
                    Errno,
                >(list@)
                &&& in_reach(list@, live@)
            },
            Err(e) => spec_named_by(*process, live@, which as int, who as int) == Err::<
                Seq<Subject>,
                Errno,
            >(e),
        },
{
    if which == PRIO_PROCESS {
        let mut named: Vec<Subject> = Vec::new();
        if let Ok(subject) = subject(process, live, who) {
            named.push(subject);
            assert(named@ =~= seq![subject]);
        } else {
            assert(named@ =~= Seq::<Subject>::empty());
        }
        Ok(named)
    } else if which == PRIO_PGRP {
        if who < 0 {
            let none: Vec<Subject> = Vec::new();
            assert(none@ =~= Seq::<Subject>::empty());
            return Ok(none);
        }
        let group: u32 = if who == 0 {
            process.pgid
        } else {
            who as u32
        };
        Ok(gather(live, Some(group)))
    } else if which == PRIO_USER {
        if who == 0 {
            Ok(gather(live, None))
        } else {
            let none: Vec<Subject> = Vec::new();
            assert(none@ =~= Seq::<Subject>::empty());
            Ok(none)
        }
    } else {
        Err(Errno::EINVAL)
    }
}

/// What the process a subject stands for has set.
pub open spec fn kept_of(book: Book, process: Process, live: Seq<Process>, subject: Subject) -> Kept {
    let p = spec_of(process, live, subject);
    spec_get(book, p.pid, p.started)
}

/// The best nice value among the first `n` of `named`: the lowest.
pub open spec fn best_nice(
    book: Book,
    process: Process,
    live: Seq<Process>,
    named: Seq<Subject>,
    n: int,
) -> int
    decreases n,
{
    let last = kept_of(book, process, live, named[n - 1]).nice;
    if n <= 1 {
        last
    } else {
        let rest = best_nice(book, process, live, named, n - 1);
        if last < rest {
            last
        } else {
            rest
        }
    }
}

/// `getpriority`'s answer: 20 less the best nice value, because a nice value
/// can be negative and a negative answer is an error.
pub open spec fn spec_getpriority(
    book: Book,
    process: Process,
    live: Seq<Process>,
    which: int,
    who: int,
) -> Result<usize, Errno> {
    match spec_named_by(process, live, which, who) {
        Err(e) => Err(e),
        Ok(named) => if named.len() == 0 {
            Err(Errno::ESRCH)
        } else {
            Ok((20 - best_nice(book, process, live, named, named.len() as int)) as usize)
        },
    }
}

/// `getpriority`: the best nice value among the processes named, encoded from
/// 1 to 40. `ESRCH` if there are none.
pub fn sys_getpriority(
    table: &Table,
    live: &Vec<Process>,
    process: &Process,
    which: i32,
    who: i32,
) -> (result: Result<usize, Errno>)
    requires
        table.wf(),
    ensures
        result == spec_getpriority(table@, *process, live@, which as int, who as int),
        match result {
            Ok(v) => 1 <= v <= 40,
            Err(_) => true,
        },
{
    let named = named_by(process, live, which, who)?;
    if named.len() == 0 {
        return Err(Errno::ESRCH);
    }
    let mut best: i32 = get(table, of(process, live, named[0])).nice;
    let mut i: usize = 1;
    while i < named.len()
        invariant
            table.wf(),
            1 <= i <= named@.len(),
            in_reach(named@, live@),
            -20 <= best <= 19,
            best == best_nice(table@, *process, live@, named@, i as int),
        decreases named@.len() - i,
    {
        let nice: i32 = get(table, of(process, live, named[i])).nice;
        if nice < best {
            best = nice;
        }
        i = i + 1;
    }
    Ok((20 - best) as usize)
}

/// A nice value brought into -20 to 19.
pub open spec fn clamped(nice: int) -> int {
    if nice < -20 {
        -20
    } else if nice > 19 {
        19
    } else {
        nice
    }
}

/// The table once the first `n` of `named` have `nice`.
pub open spec fn niced(
    book: Book,
    process: Process,
    live: Seq<Process>,
    named: Seq<Subject>,
    nice: int,
    n: int,
) -> Book
    decreases n,
{
    if n <= 0 {
        book
    } else {
        let before = niced(book, process, live, named, nice, n - 1);
        let p = spec_of(process, live, named[n - 1]);
        let kept = spec_get(before, p.pid, p.started);
        spec_update(before, live, p.pid, p.started, Kept { nice, ..kept })
    }
}

/// What `setpriority` leaves in the table, and its answer.
pub open spec fn spec_setpriority(
    book: Book,
    process: Process,
    live: Seq<Process>,
    which: int,
    who: int,
    nice: int,
) -> (Book, Result<usize, Errno>) {
    match spec_named_by(process, live, which, who) {
        Err(e) => (book, Err(e)),
        Ok(named) => if named.len() == 0 {
            (book, Err(Errno::ESRCH))
        } else {
            (
                niced(book, process, live, named, clamped(nice), named.len() as int),
                Ok(0),
            )
        },
    }
}

/// `setpriority`: keep a nice value, brought into -20 to 19, for every process
/// named. `ESRCH` if there are none.
pub fn sys_setpriority(
    table: &mut Table,
    live: &Vec<Process>,
    process: &Process,
    which: i32,
    who: i32,
    nice: i32,
) -> (result: Result<usize, Errno>)
    requires
        old(table).wf(),
    ensures
        final(table).wf(),
        (final(table)@, result) == spec_setpriority(
            old(table)@,
            *process,
            live@,
            which as int,
            who as int,
            nice as int,
        ),
{
    let named = named_by(process, live, which, who)?;
    if named.len() == 0 {
        return Err(Errno::ESRCH);
    }
    let level: i32 = if nice < -20 {
        -20
    } else if nice > 19 {
        19
    } else {
        nice
    };
    let ghost before = table@;
    let mut i: usize = 0;
    while i < named.len()
        invariant
            table.wf(),
            i <= named@.len(),
            in_reach(named@, live@),
            -20 <= level <= 19,
            table@ == niced(before, *process, live@, named@, level as int, i as int),
        decreases named@.len() - i,
    {
        let named_process = of(process, live, named[i]);
        let mut kept = get(table, named_process);
        kept.nice = level;
        update(table, live, named_process, kept);
        i = i + 1;
    }
    Ok(0)
}

/// A process that set its own nice value is told it back, brought into range.
pub proof fn law_a_nice_value_is_told_back(
    book: Book,
    process: Process,
    live: Seq<Process>,
    nice: int,
)
    ensures
        ({
            let (after, answer) = spec_setpriority(
                book,
                process,
                live,
                PRIO_PROCESS as int,
                0,
                nice,
            );
            &&& answer == Ok::<usize, Errno>(0)
            &&& spec_getpriority(after, process, live, PRIO_PROCESS as int, 0) == Ok::<
                usize,
                Errno,
            >((20 - clamped(nice)) as usize)
        }),
{
    reveal_with_fuel(niced, 2);
}

// ---------------------------------------------------------------------------
// I/O priorities
// ---------------------------------------------------------------------------

/// No class chosen, which reads as one derived from the nice value.
pub const IOPRIO_CLASS_NONE: u32 = 0;

/// Real time.
pub const IOPRIO_CLASS_RT: u32 = 1;

/// Best effort, every process's default.
pub const IOPRIO_CLASS_BE: u32 = 2;

/// Idle.
pub const IOPRIO_CLASS_IDLE: u32 = 3;

/// The class of an I/O priority: the three bits above the low thirteen.
pub open spec fn spec_io_class(ioprio: u32) -> int {
    (ioprio as int / 8192) % 8
}

/// The class of an I/O priority value.
pub fn io_class(ioprio: u32) -> (class: u32)
    ensures
        class == spec_io_class(ioprio),
{
    let class: u32 = (ioprio >> 13) & 7;
    assert((ioprio >> 13) & 7 == (ioprio / 8192) % 8) by (bit_vector);
    class
}

/// A process's I/O priority: the one set, unless it is of no class, and then
/// best effort at a level derived from the nice value.
pub open spec fn spec_io_priority(kept: Kept) -> u32 {
    match kept.io_priority {
        Some(ioprio) if spec_io_class(ioprio) != IOPRIO_CLASS_NONE => ioprio,
        _ => (IOPRIO_CLASS_BE * 8192 + (kept.nice + 20) / 5) as u32,
    }
}

/// A process's I/O priority.
pub fn io_priority_of(table: &Table, process: &Process) -> (ioprio: u32)
    requires
        table.wf(),
    ensures
        ioprio == spec_io_priority(spec_get(table@, process.pid, process.started)),
{
    let kept = get(table, process);
    if let Some(ioprio) = kept.io_priority {
        if io_class(ioprio) != IOPRIO_CLASS_NONE {
            return ioprio;
        }
    }
    let level: u32 = ((kept.nice + 20) / 5) as u32;
    IOPRIO_CLASS_BE * 8192 + level
}

/// The best I/O priority among the first `n` of `named`: the lowest.
pub open spec fn best_io(
    book: Book,
    process: Process,
    live: Seq<Process>,
    named: Seq<Subject>,
    n: int,
) -> u32
    decreases n,
{
    let last = spec_io_priority(kept_of(book, process, live, named[n - 1]));
    if n <= 1 {
        last
    } else {
        let rest = best_io(book, process, live, named, n - 1);
        if last < rest {
            last
        } else {
            rest
        }
    }
}

/// `ioprio_get`'s answer. Its selectors are `getpriority`'s, one higher.
pub open spec fn spec_ioprio_get(
    book: Book,
    process: Process,
    live: Seq<Process>,
    which: int,
    who: int,
) -> Result<usize, Errno> {
    match spec_named_by(process, live, which - 1, who) {
        Err(e) => Err(e),
        Ok(named) => if named.len() == 0 {
            Err(Errno::ESRCH)
        } else {
            Ok(best_io(book, process, live, named, named.len() as int) as usize)
        },
    }
}

/// `getpriority`'s selector for `ioprio_get`'s.
fn io_selector(which: i32) -> (selector: i32)
    ensures
        forall|process: Process, live: Seq<Process>, who: int| #[trigger]
            spec_named_by(process, live, selector as int, who) == spec_named_by(
                process,
                live,
                which - 1,
                who,
            ),
{
    if which > 3 || which < 1 {
        3
    } else {
        which - 1
    }
}

/// `ioprio_get`: the I/O priority of the processes named, the best of them if
/// several. `ESRCH` if there are none.
pub fn sys_ioprio_get(
    table: &Table,
    live: &Vec<Process>,
    process: &Process,
    which: i32,
    who: i32,
) -> (result: Result<usize, Errno>)
    requires
        table.wf(),
    ensures
        result == spec_ioprio_get(table@, *process, live@, which as int, who as int),
{
    let named = named_by(process, live, io_selector(which), who)?;
    if named.len() == 0 {
        return Err(Errno::ESRCH);
    }
    let mut best: u32 = io_priority_of(table, of(process, live, named[0]));
    let mut i: usize = 1;
    while i < named.len()
        invariant
            table.wf(),
            1 <= i <= named@.len(),
            in_reach(named@, live@),
            best == best_io(table@, *process, live@, named@, i as int),
        decreases named@.len() - i,
    {
        let ioprio: u32 = io_priority_of(table, of(process, live, named[i]));
        if ioprio < best {
            best = ioprio;
        }
        i = i + 1;
    }
    Ok(best as usize)
}

/// Whether `ioprio_set` takes a value: one of the three classes, or none at
/// level 0.
pub open spec fn io_allowed(value: u32) -> bool {
    let class = spec_io_class(value);
    class == IOPRIO_CLASS_RT || class == IOPRIO_CLASS_BE || class == IOPRIO_CLASS_IDLE || (class
        == IOPRIO_CLASS_NONE && value as int % 8 == 0)
}

/// The table once the first `n` of `named` have the I/O priority `value`.
pub open spec fn io_set(
    book: Book,
    process: Process,
    live: Seq<Process>,
    named: Seq<Subject>,
    value: u32,
    n: int,
) -> Book
    decreases n,
{
    if n <= 0 {
        book
    } else {
        let before = io_set(book, process, live, named, value, n - 1);
        let p = spec_of(process, live, named[n - 1]);
        let kept = spec_get(before, p.pid, p.started);
        spec_update(before, live, p.pid, p.started, Kept { io_priority: Some(value), ..kept })
    }
}

/// What `ioprio_set` leaves in the table, and its answer. The value is checked
/// before the processes are looked for.
pub open spec fn spec_ioprio_set(
    book: Book,
    process: Process,
    live: Seq<Process>,
    which: int,
    who: int,
    value: u32,
) -> (Book, Result<usize, Errno>) {
    if !io_allowed(value) {
        (book, Err(Errno::EINVAL))
    } else {
        match spec_named_by(process, live, which - 1, who) {
            Err(e) => (book, Err(e)),
            Ok(named) => if named.len() == 0 {
                (book, Err(Errno::ESRCH))
            } else {
                (io_set(book, process, live, named, value, named.len() as int), Ok(0))
            },
        }
    }
}

/// `ioprio_set`: check the value, then keep it for every process named.
///
/// `EINVAL` for a class there is not, or a level without a class; `ESRCH` if
/// no process is named.
pub fn sys_ioprio_set(
    table: &mut Table,
    live: &Vec<Process>,
    process: &Process,
    which: i32,
    who: i32,
    value: u32,
) -> (result: Result<usize, Errno>)
    requires
        old(table).wf(),
    ensures
        final(table).wf(),
        (final(table)@, result) == spec_ioprio_set(
            old(table)@,
            *process,
            live@,
            which as int,
            who as int,
            value,
        ),
{
    let class: u32 = io_class(value);
    if !(class == IOPRIO_CLASS_RT || class == IOPRIO_CLASS_BE || class == IOPRIO_CLASS_IDLE || (
    class == IOPRIO_CLASS_NONE && value % 8 == 0)) {
        return Err(Errno::EINVAL);
    }
    let named = named_by(process, live, io_selector(which), who)?;
    if named.len() == 0 {
        return Err(Errno::ESRCH);
    }
    let ghost before = table@;
    let mut i: usize = 0;
    while i < named.len()
        invariant
            table.wf(),
            i <= named@.len(),
            in_reach(named@, live@),
            table@ == io_set(before, *process, live@, named@, value, i as int),
        decreases named@.len() - i,
    {
        let named_process = of(process, live, named[i]);
        let mut kept = get(table, named_process);
        kept.io_priority = Some(value);
        update(table, live, named_process, kept);
        i = i + 1;
    }
    Ok(0)
}

/// An I/O priority of a class, once set, is the one reported.
pub proof fn law_an_io_priority_is_told_back(
    book: Book,
    process: Process,
    live: Seq<Process>,
    value: u32,
)
    requires
        io_allowed(value),
        spec_io_class(value) != IOPRIO_CLASS_NONE,
    ensures
        ({
            let (after, answer) = spec_ioprio_set(book, process, live, 1, 0, value);
            &&& answer == Ok::<usize, Errno>(0)
            &&& spec_ioprio_get(after, process, live, 1, 0) == Ok::<usize, Errno>(
                value as usize,
            )
        }),
{
    reveal_with_fuel(io_set, 2);
}

// ---------------------------------------------------------------------------
// The calls
// ---------------------------------------------------------------------------

/// What one of this module's calls leaves in the table and in memory, and its
/// answer; `None` for a call that is not one of them.
pub open spec fn spec_dispatch(
    book: Book,
    m: Memory,
    process: Process,
    live: Seq<Process>,
    call: Syscall,
    a: Seq<u64>,
    arch: Arch,
) -> Option<(Book, Memory, Result<usize, Errno>)> {
    let first = spec_int(a[0] as int);
    let second = spec_int(a[1] as int);
    match call {
        Syscall::Prctl => {
            let args = narrowed(seq![a[1], a[2], a[3], a[4]], arch);
            let (after, answer) = prctl_answer(m, book, process, first, args);
            Some((prctl_book(m, book, live, process, first, args), after, answer))
        },
        Syscall::Personality => Some(
            (
                spec_personality(book, live, process, spec_low_u32(a[0] as int) as u32),
                m,
                Ok(spec_get(book, process.pid, process.started).personality as usize),
            ),
        ),
        Syscall::SetRobustList => {
            let (after, answer) = spec_set_robust_list(book, live, process, a[0], a[1], arch);
            Some((after, m, answer))
        },
        Syscall::GetRobustList => {
            let (after, answer) = spec_get_robust_list(
                m,
                book,
                live,
                process,
                first,
                a[1],
                a[2],
                arch,
            );
            Some((book, after, answer))
        },
        Syscall::Getpriority => Some(
            (book, m, spec_getpriority(book, process, live, first, second)),
        ),
        Syscall::Setpriority => {
            let (after, answer) = spec_setpriority(
                book,
                process,
                live,
                first,
                second,
                spec_int(a[2] as int),
            );
            Some((after, m, answer))
        },
        Syscall::IoprioGet => Some((book, m, spec_ioprio_get(book, process, live, first, second))),
        Syscall::IoprioSet => {
            let (after, answer) = spec_ioprio_set(
                book,
                process,
                live,
                first,
                second,
                spec_low_u32(a[2] as int) as u32,
            );
            Some((after, m, answer))
        },
        Syscall::Rseq => Some((book, m, Err(Errno::ENOSYS))),
        _ => None,
    }
}

/// Answer `call` if it is one of this module's.
///
/// A restartable sequence is refused on purpose: accepting the registration
/// would promise to rewrite the program's instruction pointer on preemption,
/// and refused, a libc falls back to asking for the processor.
pub fn dispatch(
    call: Syscall,
    a: &[u64; 6],
    table: &mut Table,
    space: &mut AddressSpace,
    live: &Vec<Process>,
    process: &Process,
    arch: Arch,
) -> (answer: Option<Result<usize, Errno>>)
    requires
        old(table).wf(),
        old(space).wf(),
    ensures
        final(table).wf(),
        final(space).wf(),
        final(space).same_layout(*old(space)),
        match spec_dispatch(old(table)@, old(space)@, *process, live@, call, a@, arch) {
            Some((book, after, result)) => {
                &&& answer == Some(result)
                &&& final(table)@ == book
                &&& final(space)@ == after
            },
            None => {
                &&& answer is None
                &&& final(table)@ == old(table)@
                &&& *final(space) == *old(space)
            },
        },
{
    let first: i32 = int_arg(a[0]);
    let second: i32 = int_arg(a[1]);
    match call {
        Syscall::Prctl => {
            let args: [u64; 4] = [a[1], a[2], a[3], a[4]];
            assert(args@ =~= seq![a@[1], a@[2], a@[3], a@[4]]);
            Some(sys_prctl(table, space, live, process, first, args, arch))
        },
        Syscall::Personality => Some(Ok(sys_personality(table, live, process, low_u32(a[0])))),
        Syscall::SetRobustList => Some(
            sys_set_robust_list(table, live, process, a[0], a[1], arch),
        ),
        Syscall::GetRobustList => Some(
            sys_get_robust_list(table, space, live, process, first, a[1], a[2], arch),
        ),
        Syscall::Getpriority => Some(sys_getpriority(table, live, process, first, second)),
        Syscall::Setpriority => Some(
            sys_setpriority(table, live, process, first, second, int_arg(a[2])),
        ),
        Syscall::IoprioGet => Some(sys_ioprio_get(table, live, process, first, second)),
        Syscall::IoprioSet => Some(
            sys_ioprio_set(table, live, process, first, second, low_u32(a[2])),
        ),
        Syscall::Rseq => Some(Err(Errno::ENOSYS)),
        _ => None,
    }
}

// ---------------------------------------------------------------------------
// What is kept of a process, and told
// ---------------------------------------------------------------------------

/// A name is kept as its first fifteen bytes, with zeros behind them to
/// sixteen.
pub proof fn law_a_name_is_kept_in_sixteen_bytes(bytes: Seq<u8>, i: int)
    ensures
        padded(bytes).len() == 16,
        0 <= i < 15 && i < bytes.len() ==> padded(bytes)[i] == bytes[i],
        0 <= i < 16 && (i >= bytes.len() || i == 15) ==> padded(bytes)[i] == 0,
{
}

/// The name set is the string in the program's memory, as far as it is kept; a
/// process that set none has its program's.
pub proof fn law_a_name_is_what_was_set(m: Memory, at: u64, book: Book, process: Process)
    ensures
        m.cstr(at as int, 15) matches CStr::Complete(text) ==> spec_read_name(m, at) == Ok::<
            Seq<u8>,
            Errno,
        >(padded(text)),
        m.cstr(at as int, 15) == CStr::TooLong ==> spec_read_name(m, at) == Ok::<Seq<u8>, Errno>(
            padded(m.read(at as int, 15)),
        ),
        m.cstr(at as int, 15) == CStr::Fault ==> spec_read_name(m, at) == Err::<Seq<u8>, Errno>(
            Errno::EFAULT,
        ),
        spec_get(book, process.pid, process.started).name is None ==> spec_name_of(book, process)
            == padded(process.comm@),
        spec_get(book, process.pid, process.started).name matches Some(name) ==> spec_name_of(
            book,
            process,
        ) == name,
{
}

/// What `prctl` sets is the one thing its option names, to what it was given,
/// and everything else stays.
pub proof fn law_prctl_sets_what_its_option_names(m: Memory, kept: Kept, option: int, a: Seq<u64>)
    requires
        a.len() == 4,
    ensures
        ({
            let now = prctl_kept(m, kept, option, a);
            &&& option == 1 && a[0] <= 64 ==> now == Some(
                Kept { parent_death_signal: a[0] as u32, ..kept },
            )
            &&& option == 1 && a[0] > 64 ==> now is None
            &&& option == 4 && a[0] <= 1 ==> now == Some(Kept { dumpable: a[0] == 1, ..kept })
            &&& option == 4 && a[0] > 1 ==> now is None
            &&& option == 15 ==> (spec_read_name(m, a[0]) matches Ok(name) ==> now == Some(
                Kept { name: Some(name), ..kept },
            ))
            &&& option == 36 ==> now == Some(Kept { child_subreaper: a[0] != 0, ..kept })
            &&& option == 38 && a[0] == 1 && a[1] == 0 && a[2] == 0 && a[3] == 0 ==> now == Some(
                Kept { no_new_privs: true, ..kept },
            )
            &&& option != 1 && option != 4 && option != 15 && option != 36 && option != 38 ==> now
                is None
            &&& option == 38 && !(a[0] == 1 && a[1] == 0 && a[2] == 0 && a[3] == 0) ==> now is None
        }),
{
}

/// What `prctl` tells is what is kept: a number or a name where it was asked
/// for, and a switch as its answer. An option it does not know is refused.
pub proof fn law_prctl_tells_what_is_kept(
    m: Memory,
    book: Book,
    process: Process,
    option: int,
    a: Seq<u64>,
)
    requires
        m.valid(),
        a.len() == 4,
    ensures
        ({
            let (after, answer) = prctl_answer(m, book, process, option, a);
            let kept = spec_get(book, process.pid, process.started);
            &&& option == 2 && m.can_write(a[0] as int, 4) ==> answer == Ok::<usize, Errno>(0)
                && after.number(a[0] as int, 4) == kept.parent_death_signal
            &&& option == 37 && m.can_write(a[0] as int, 4) ==> answer == Ok::<usize, Errno>(0)
                && after.number(a[0] as int, 4) == (if kept.child_subreaper {
                1nat
            } else {
                0
            })
            &&& option == 3 ==> answer == Ok::<usize, Errno>(
                if kept.dumpable {
                    1
                } else {
                    0
                },
            )
            &&& option == 39 && a[0] == 0 && a[1] == 0 && a[2] == 0 && a[3] == 0 ==> answer == Ok::<
                usize,
                Errno,
            >(
                if kept.no_new_privs {
                    1
                } else {
                    0
                },
            )
            &&& option == 16 ==> (m.can_write(a[0] as int, spec_name_of(book, process).len() as int)
                ==> answer == Ok::<usize, Errno>(0) && after == m.store(
                a[0] as int,
                spec_name_of(book, process),
            ))
            &&& option == 23 ==> (answer == Ok::<usize, Errno>(1) <==> a[0] <= 40)
            &&& option != 2 && option != 16 && option != 37 ==> after == m
            &&& answer is Err ==> after == m
            &&& !(option == 1 || option == 2 || option == 3 || option == 4 || option == 15 || option
                == 16 || option == 23 || option == 36 || option == 37 || option == 38 || option
                == 39) ==> answer == Err::<usize, Errno>(Errno::EINVAL)
        }),
{
    let kept = spec_get(book, process.pid, process.started);
    crate::bytes::lemma_byte_spans();
    if m.can_write(a[0] as int, 4) {
        crate::uaccess::law_a_number_is_read_back(
            m,
            a[0] as int,
            kept.parent_death_signal as nat,
            4,
            0,
        );
        crate::uaccess::law_a_number_is_read_back(m, a[0] as int, 0, 4, 0);
        crate::uaccess::law_a_number_is_read_back(m, a[0] as int, 1, 4, 0);
    }
    lemma_le_bytes_len(kept.parent_death_signal as nat, 4);
    lemma_le_bytes_len(0, 4);
    lemma_le_bytes_len(1, 4);
}

/// A personality that is set is the one kept, and asking for it sets none.
pub proof fn law_a_personality_is_kept(
    book: Book,
    live: Seq<Process>,
    process: Process,
    persona: u32,
)
    ensures
        ({
            let before = spec_get(book, process.pid, process.started);
            let after = spec_get(
                spec_personality(book, live, process, persona),
                process.pid,
                process.started,
            );
            &&& persona != 0xFFFF_FFFF ==> after == (Kept { personality: persona, ..before })
            &&& persona == 0xFFFF_FFFF ==> spec_personality(book, live, process, persona) == book
        }),
{
}

/// A robust list is kept with its head where its size is right, three words of
/// the machine, and not otherwise.
pub proof fn law_a_robust_list_is_kept_with_its_head(
    book: Book,
    live: Seq<Process>,
    process: Process,
    head: u64,
    len: u64,
    arch: Arch,
)
    ensures
        ({
            let (after, result) = spec_set_robust_list(book, live, process, head, len, arch);
            let before = spec_get(book, process.pid, process.started);
            let now = spec_get(after, process.pid, process.started);
            &&& arch != Arch::Arm ==> (result == Ok::<usize, Errno>(0) <==> len == 24)
            &&& arch == Arch::Arm && len <= 0xFFFF_FFFF ==> (result == Ok::<usize, Errno>(0)
                <==> len == 12)
            &&& result is Err ==> result == Err::<usize, Errno>(Errno::EINVAL) && after == book
            &&& result is Ok && arch != Arch::Arm ==> now == (Kept { robust_list: head, ..before })
            &&& result is Ok && arch == Arch::Arm ==> now.robust_list == head % 0x1_0000_0000
        }),
{
}

/// The robust list told is the one kept of the process asked about, with its
/// size.
pub proof fn law_a_robust_list_is_told(
    m: Memory,
    book: Book,
    live: Seq<Process>,
    process: Process,
    head_ptr: u64,
    len_ptr: u64,
)
    requires
        m.valid(),
        m.can_write(head_ptr as int, 8) && m.can_write(len_ptr as int, 8),
        head_ptr + 8 <= len_ptr || len_ptr + 8 <= head_ptr,
    ensures
        ({
            let (after, result) = spec_get_robust_list(
                m,
                book,
                live,
                process,
                0,
                head_ptr,
                len_ptr,
                Arch::X86_64,
            );
            &&& result == Ok::<usize, Errno>(0)
            &&& after.number(head_ptr as int, 8) == spec_get(
                book,
                process.pid,
                process.started,
            ).robust_list
            &&& after.number(len_ptr as int, 8) == 24
        }),
{
    let head = spec_get(book, process.pid, process.started).robust_list;
    let size = le_bytes(24, 8);
    let data = le_bytes(head as nat, 8);
    lemma_le_bytes_len(24, 8);
    lemma_le_bytes_len(head as nat, 8);
    crate::bytes::lemma_byte_spans();
    let one = m.store(len_ptr as int, size);
    assert(one.bytes.dom() =~= m.bytes.dom());
    crate::uaccess::lemma_store_permissions(m, len_ptr as int, size, head_ptr as int, 8);
    crate::uaccess::lemma_store_permissions(m, len_ptr as int, size, len_ptr as int, 8);
    crate::uaccess::law_a_number_is_read_back(m, len_ptr as int, 24, 8, 0);
    crate::uaccess::law_a_number_is_read_back(one, head_ptr as int, head as nat, 8, 0);
    assert(one.can_read(len_ptr as int, 8)) by {
        assert forall|a: int| len_ptr <= a < len_ptr + 8 implies #[trigger] one.bytes.dom().contains(
            a,
        ) by {
            assert(m.writable.contains(a));
        }
    }
    crate::uaccess::lemma_read_after_store(one, head_ptr as int, data, len_ptr as int, 8);
}

proof fn lemma_members(live: Seq<Process>, group: Option<u32>, n: int, i: int)
    requires
        0 <= i < live.len(),
        0 <= n <= live.len(),
        live.len() <= usize::MAX,
    ensures
        members(live, group, n).contains(Subject::Other(i as usize)) <==> i < n && (group is None
            || group == Some(live[i].pgid)),
        !members(live, group, n).contains(Subject::Caller),
    decreases n,
{
    if n > 0 {
        lemma_members(live, group, n - 1, i);
        let before = members(live, group, n - 1);
        let all = members(live, group, n);
        if group is None || group == Some(live[n - 1].pgid) {
            let last = Subject::Other((n - 1) as usize);
            assert(all == before.push(last));
            assert(all[before.len() as int] == last);
            if before.contains(Subject::Other(i as usize)) {
                let k = choose|k: int|
                    0 <= k < before.len() && before[k] == Subject::Other(i as usize);
                assert(all[k] == Subject::Other(i as usize));
            }
            if all.contains(Subject::Other(i as usize)) {
                let k = choose|k: int| 0 <= k < all.len() && all[k] == Subject::Other(i as usize);
                if k < before.len() {
                    assert(before[k] == Subject::Other(i as usize));
                }
            }
            if all.contains(Subject::Caller) {
                let k = choose|k: int| 0 <= k < all.len() && all[k] == Subject::Caller;
                assert(before[k] == Subject::Caller);
            }
        }
    }
}

/// A priority call is about whom it names: a process by its number, a group by
/// its, and every process by the one user there is.
pub proof fn law_a_priority_call_is_about_whom_it_names(
    process: Process,
    live: Seq<Process>,
    which: int,
    who: int,
    i: int,
)
    requires
        0 <= i < live.len(),
        live.len() <= usize::MAX,
        -0x8000_0000 <= who <= 0x7FFF_FFFF,
    ensures
        spec_named_by(process, live, which, who) is Ok <==> 0 <= which <= 2,
        spec_named_by(process, live, which, who) matches Err(e) ==> e == Errno::EINVAL,
        spec_named_by(process, live, which, who) matches Ok(named) ==> {
            let there = named.contains(Subject::Other(i as usize));
            &&& which == 0 && who == 0 ==> named == seq![Subject::Caller]
            &&& which == 0 ==> named.len() <= 1
            &&& which == 0 && who != 0 ==> (there ==> live[i].pid == who)
            &&& which == 1 && who == 0 ==> (there <==> live[i].pgid == process.pgid)
            &&& which == 1 && who > 0 ==> (there <==> live[i].pgid == who)
            &&& which == 1 && who < 0 ==> named.len() == 0
            &&& which == 2 && who == 0 ==> there
            &&& which == 2 && who != 0 ==> named.len() == 0
        },
{
    crate::process::lemma_find(live, who, 0);
    lemma_members(live, Some(process.pgid), live.len() as int, i);
    lemma_members(live, Some(who as u32), live.len() as int, i);
    lemma_members(live, None, live.len() as int, i);
    if let Ok(named) = spec_named_by(process, live, which, who) {
        if which == 0 && named.contains(Subject::Other(i as usize)) {
            assert(named[0] == Subject::Other(i as usize));
        }
    }
}

/// The nice value told of several processes is the best of theirs: none has a
/// better, and one has it.
pub proof fn law_the_best_nice_value_is_told(
    book: Book,
    process: Process,
    live: Seq<Process>,
    named: Seq<Subject>,
    n: int,
    k: int,
)
    requires
        0 <= k < n <= named.len(),
    ensures
        best_nice(book, process, live, named, n) <= kept_of(book, process, live, named[k]).nice,
        exists|j: int|
            0 <= j < n && kept_of(book, process, live, #[trigger] named[j]).nice == best_nice(
                book,
                process,
                live,
                named,
                n,
            ),
    decreases n,
{
    if n > 1 {
        let other = if k < n - 1 {
            k
        } else {
            0
        };
        law_the_best_nice_value_is_told(book, process, live, named, n - 1, other);
        let j = choose|j: int|
            0 <= j < n - 1 && kept_of(book, process, live, #[trigger] named[j]).nice == best_nice(
                book,
                process,
                live,
                named,
                n - 1,
            );
        assert(kept_of(book, process, live, named[j]).nice == best_nice(book, process, live, named, n)
            || kept_of(book, process, live, named[n - 1]).nice == best_nice(
            book,
            process,
            live,
            named,
            n,
        ));
    } else {
        assert(kept_of(book, process, live, named[0]).nice == best_nice(
            book,
            process,
            live,
            named,
            n,
        ));
    }
}

/// A priority is answered as twenty less the best nice value, of somebody; for
/// nobody there is none.
pub proof fn law_a_priority_is_twenty_less_the_nice_value(
    book: Book,
    process: Process,
    live: Seq<Process>,
    which: int,
    who: int,
)
    ensures
        spec_named_by(process, live, which, who) matches Ok(named) ==> {
            &&& named.len() == 0 ==> spec_getpriority(book, process, live, which, who) == Err::<
                usize,
                Errno,
            >(Errno::ESRCH)
            &&& named.len() > 0 ==> spec_getpriority(book, process, live, which, who) == Ok::<
                usize,
                Errno,
            >((20 - best_nice(book, process, live, named, named.len() as int)) as usize)
            &&& named.len() == 0 ==> spec_setpriority(book, process, live, which, who, 0) == (
                book,
                Err::<usize, Errno>(Errno::ESRCH),
            )
        },
{
}

/// A nice value is brought into its range, and left alone in it.
pub proof fn law_a_nice_value_is_brought_into_range(nice: int)
    ensures
        -20 <= clamped(nice) <= 19,
        -20 <= nice <= 19 ==> clamped(nice) == nice,
        nice < -20 ==> clamped(nice) == -20,
        nice > 19 ==> clamped(nice) == 19,
{
}

/// The I/O priority of a process that set none follows its nice value, best
/// effort; one that was set is the one kept. A class there is not is refused.
pub proof fn law_an_io_priority_follows_the_nice_value(kept: Kept, value: u32)
    requires
        -20 <= kept.nice <= 19,
    ensures
        kept.io_priority is None ==> spec_io_priority(kept) == 16384 + (kept.nice + 20) / 5,
        kept.io_priority matches Some(set) ==> set >= 8192 && set < 65536 ==> spec_io_priority(
            kept,
        ) == set,
        8192 <= value < 32768 ==> io_allowed(value),
        32768 <= value < 65536 ==> !io_allowed(value),
        value < 8192 ==> (io_allowed(value) <==> value % 8 == 0),
{
}

/// A call about what a process said of itself takes its own registers, and
/// those that only ask change nothing.
pub proof fn law_an_asking_call_changes_nothing(
    book: Book,
    m: Memory,
    process: Process,
    live: Seq<Process>,
    call: Syscall,
    a: Seq<u64>,
    arch: Arch,
)
    requires
        a.len() == 6,
    ensures
        spec_dispatch(book, m, process, live, call, a, arch) matches Some((now, after, answer)) ==> {
            &&& call == Syscall::Getpriority || call == Syscall::IoprioGet ==> now == book && after
                == m
            &&& call == Syscall::GetRobustList ==> now == book
            &&& call == Syscall::Setpriority || call == Syscall::IoprioSet || call
                == Syscall::Personality || call == Syscall::SetRobustList ==> after == m
            &&& call == Syscall::Personality ==> answer == Ok::<usize, Errno>(
                spec_get(book, process.pid, process.started).personality as usize,
            )
            &&& call == Syscall::Rseq ==> answer == Err::<usize, Errno>(Errno::ENOSYS) && now
                == book && after == m
        },
        spec_dispatch(book, m, process, live, call, a, arch) is Some <==> call == Syscall::Prctl
            || call == Syscall::Personality || call == Syscall::SetRobustList || call
            == Syscall::GetRobustList || call == Syscall::Getpriority || call
            == Syscall::Setpriority || call == Syscall::IoprioGet || call == Syscall::IoprioSet
            || call == Syscall::Rseq,
{
}

/// A nice value set for several processes is set for each of them, and for
/// nobody else who lives.
pub proof fn law_everyone_named_gets_the_nice_value(
    book: Book,
    process: Process,
    live: Seq<Process>,
    named: Seq<Subject>,
    nice: int,
    n: int,
    other: Process,
)
    requires
        0 <= n <= named.len(),
        alive(live, other.pid, other.started),
        forall|j: int|
            0 <= j < n ==> {
                let p = spec_of(process, live, #[trigger] named[j]);
                alive(live, p.pid, p.started)
            },
    ensures
        ({
            let before = spec_get(book, other.pid, other.started);
            let after = spec_get(
                niced(book, process, live, named, nice, n),
                other.pid,
                other.started,
            );
            let there = exists|j: int|
                0 <= j < n && spec_of(process, live, #[trigger] named[j]).pid == other.pid;
            &&& there ==> after == (Kept { nice, ..before })
            &&& !there ==> after == before
        }),
    decreases n,
{
    if n > 0 {
        law_everyone_named_gets_the_nice_value(book, process, live, named, nice, n - 1, other);
        let p = spec_of(process, live, named[n - 1]);
        assert(alive(live, p.pid, p.started));
        if p.pid != other.pid {
            if exists|j: int|
                0 <= j < n && spec_of(process, live, #[trigger] named[j]).pid == other.pid {
                let j = choose|j: int|
                    0 <= j < n && spec_of(process, live, #[trigger] named[j]).pid == other.pid;
                assert(j < n - 1);
            }
        }
    }
}

/// So is an I/O priority.
pub proof fn law_everyone_named_gets_the_io_priority(
    book: Book,
    process: Process,
    live: Seq<Process>,
    named: Seq<Subject>,
    value: u32,
    n: int,
    other: Process,
)
    requires
        0 <= n <= named.len(),
        alive(live, other.pid, other.started),
        forall|j: int|
            0 <= j < n ==> {
                let p = spec_of(process, live, #[trigger] named[j]);
                alive(live, p.pid, p.started)
            },
    ensures
        ({
            let before = spec_get(book, other.pid, other.started);
            let after = spec_get(
                io_set(book, process, live, named, value, n),
                other.pid,
                other.started,
            );
            let there = exists|j: int|
                0 <= j < n && spec_of(process, live, #[trigger] named[j]).pid == other.pid;
            &&& there ==> after == (Kept { io_priority: Some(value), ..before })
            &&& !there ==> after == before
        }),
    decreases n,
{
    if n > 0 {
        law_everyone_named_gets_the_io_priority(book, process, live, named, value, n - 1, other);
        let p = spec_of(process, live, named[n - 1]);
        assert(alive(live, p.pid, p.started));
        if p.pid != other.pid {
            if exists|j: int|
                0 <= j < n && spec_of(process, live, #[trigger] named[j]).pid == other.pid {
                let j = choose|j: int|
                    0 <= j < n && spec_of(process, live, #[trigger] named[j]).pid == other.pid;
                assert(j < n - 1);
            }
        }
    }
}

/// The I/O priority told of several processes is the best of theirs, which is
/// the lowest.
pub proof fn law_the_best_io_priority_is_told(
    book: Book,
    process: Process,
    live: Seq<Process>,
    named: Seq<Subject>,
    n: int,
    k: int,
)
    requires
        0 <= k < n <= named.len(),
    ensures
        best_io(book, process, live, named, n) <= spec_io_priority(
            kept_of(book, process, live, named[k]),
        ),
        exists|j: int|
            0 <= j < n && spec_io_priority(kept_of(book, process, live, #[trigger] named[j]))
                == best_io(book, process, live, named, n),
    decreases n,
{
    if n > 1 {
        let other = if k < n - 1 {
            k
        } else {
            0
        };
        law_the_best_io_priority_is_told(book, process, live, named, n - 1, other);
        let j = choose|j: int|
            0 <= j < n - 1 && spec_io_priority(kept_of(book, process, live, #[trigger] named[j]))
                == best_io(book, process, live, named, n - 1);
        assert(spec_io_priority(kept_of(book, process, live, named[j])) == best_io(
            book,
            process,
            live,
            named,
            n,
        ) || spec_io_priority(kept_of(book, process, live, named[n - 1])) == best_io(
            book,
            process,
            live,
            named,
            n,
        ));
    } else {
        assert(spec_io_priority(kept_of(book, process, live, named[0])) == best_io(
            book,
            process,
            live,
            named,
            n,
        ));
    }
}

/// A process that has set nothing may be dumped, has no name, no niceness and
/// no limits of its own, and nothing that would take a privilege from it.
pub proof fn law_a_process_starts_with_nothing_set()
    ensures
        Kept::fresh().dumpable,
        Kept::fresh().name is None,
        !Kept::fresh().no_new_privs,
        !Kept::fresh().child_subreaper,
        Kept::fresh().nice == 0,
        Kept::fresh().io_priority is None,
        Kept::fresh().personality == 0,
        Kept::fresh().robust_list == 0,
        Kept::fresh().parent_death_signal == 0,
        Kept::fresh().in_root_group,
        Kept::fresh().limits.len() == 16,
        forall|i: int| 0 <= i < 16 ==> (#[trigger] Kept::fresh().limits[i]) is None,
{
}

/// A call is answered with its own registers: whom it names by the low half of
/// the first or second, and a value by the low half of the third.
pub proof fn law_an_attribute_call_takes_its_own_registers(
    book: Book,
    m: Memory,
    process: Process,
    live: Seq<Process>,
    call: Syscall,
    a: Seq<u64>,
    arch: Arch,
    first: int,
    second: int,
    third: int,
)
    requires
        a.len() == 6,
        (a[0] - first) % 0x1_0000_0000 == 0,
        (a[1] - second) % 0x1_0000_0000 == 0,
        (a[2] - third) % 0x1_0000_0000 == 0,
        -0x8000_0000 <= first < 0x8000_0000,
        -0x8000_0000 <= second < 0x8000_0000,
        0 <= third < 0x8000_0000,
    ensures
        ({
            let told = spec_dispatch(book, m, process, live, call, a, arch);
            let done = told.unwrap();
            &&& call == Syscall::Getpriority ==> told == Some(
                (book, m, spec_getpriority(book, process, live, first, second)),
            )
            &&& call == Syscall::IoprioGet ==> told == Some(
                (book, m, spec_ioprio_get(book, process, live, first, second)),
            )
            &&& call == Syscall::Setpriority ==> told is Some && done.1 == m && (
                done.0,
                done.2,
            ) == spec_setpriority(book, process, live, first, second, third)
            &&& call == Syscall::IoprioSet ==> told is Some && done.1 == m && (
                done.0,
                done.2,
            ) == spec_ioprio_set(book, process, live, first, second, third as u32)
            &&& call == Syscall::SetRobustList ==> told is Some && done.1 == m && (
                done.0,
                done.2,
            ) == spec_set_robust_list(book, live, process, a[0], a[1], arch)
            &&& call == Syscall::GetRobustList ==> told is Some && done.0 == book && (
                done.1,
                done.2,
            ) == spec_get_robust_list(m, book, live, process, first, a[1], a[2], arch)
            &&& call == Syscall::Rseq ==> told == Some((book, m, Err::<usize, Errno>(Errno::ENOSYS)))
            &&& call == Syscall::Personality ==> told is Some && done.1 == m && (0 <= first
                ==> done.0 == spec_personality(book, live, process, first as u32))
        }),
{
}

} // verus!
