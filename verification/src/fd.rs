//! Descriptors: the table a process keeps them in, `openat`, `close`, `dup`
//! and its kin, `fcntl`, `lseek`, `ftruncate` and `ioctl`.
//!
//! A descriptor is a number in one process's table; what it names is an open
//! description, which other descriptors and other processes may name too. The
//! descriptions of the whole system are one list, and a table's slot holds the
//! place in it.

use vstd::prelude::*;

use crate::abi::{low_u32, signed_32, signed_64, spec_int, spec_low_u32, spec_signed_64, Arch};
use crate::bytes::le_bytes;
use crate::errno::Errno;
use crate::file::{only_asked, since, Backend, Event, Whence};
use crate::uaccess::{AddressSpace, CStr, CString};

verus! {

/// The working directory, as a starting point.
pub const AT_FDCWD: i32 = -100;

/// The longest path, its terminator counted.
pub const PATH_MAX: usize = 4096;

/// The most descriptors any table may be allowed.
pub const MAX_LIMIT: u32 = 1_048_576;

/// How many descriptors a table is allowed to begin with.
pub const DEFAULT_LIMIT: u32 = 1024;

pub const O_RDONLY: u32 = 0;

pub const O_WRONLY: u32 = 1;

pub const O_RDWR: u32 = 2;

pub const O_ACCMODE: u32 = 3;

pub const O_CREAT: u32 = 0o100;

pub const O_EXCL: u32 = 0o200;

pub const O_TRUNC: u32 = 0o1000;

pub const O_APPEND: u32 = 0o2000;

pub const O_NONBLOCK: u32 = 0o4000;

pub const O_CLOEXEC: u32 = 0o2000000;

pub const O_PATH: u32 = 0o10000000;

pub const F_DUPFD: u32 = 0;

pub const F_GETFD: u32 = 1;

pub const F_SETFD: u32 = 2;

pub const F_GETFL: u32 = 3;

pub const F_SETFL: u32 = 4;

pub const F_DUPFD_CLOEXEC: u32 = 1030;

pub const FD_CLOEXEC: u64 = 1;

/// What a file is.
#[derive(Clone, Copy, Debug, PartialEq, Eq, Structural)]
pub enum FileType {
    Regular,
    Directory,
    Symlink,
    CharDevice,
    BlockDevice,
    Fifo,
    Socket,
}

/// An open description: what every descriptor naming it shares.
#[derive(Clone, Copy, Debug, PartialEq, Eq, Structural)]
pub struct OpenFile {
    /// What was opened.
    pub kind: FileType,
    /// Opened as a name only, with `O_PATH`.
    pub path_only: bool,
    /// Open for reading.
    pub readable: bool,
    /// Open for writing.
    pub writable: bool,
    /// Writes go to the end.
    pub append: bool,
    /// Calls do not wait.
    pub nonblock: bool,
    /// The filesystem the file is on.
    pub filesystem: u64,
    /// The file's number within it.
    pub ino: u64,
    /// Whether the file can be waited on.
    pub pollable: bool,
    /// Whether it is an epoll set.
    pub epoll_set: bool,
    /// Whether it is the console.
    pub console: bool,
    /// Whether it has pages to map.
    pub mappable: bool,
    /// The seals on it.
    pub seals: u32,
}

/// What one descriptor names.
#[derive(Clone, Copy, Debug, PartialEq, Eq, Structural)]
pub struct Slot {
    /// The description.
    pub file: usize,
    /// Whether `execve` closes it.
    pub cloexec: bool,
}

/// A process's descriptors.
#[derive(Debug)]
pub struct FdTable {
    /// Each number's slot.
    pub slots: Vec<Option<Slot>>,
    /// Numbers at or above this are not given out.
    pub limit: u32,
}

impl FdTable {
    /// Which numbers name something, and what.
    pub open spec fn view(self) -> Map<int, Slot> {
        Map::new(
            |fd: int| 0 <= fd < self.slots@.len() && self.slots@[fd] is Some,
            |fd: int| self.slots@[fd]->0,
        )
    }

    /// No number past the largest limit is ever used.
    pub open spec fn wf(self) -> bool {
        self.slots@.len() <= MAX_LIMIT && self.limit <= MAX_LIMIT
    }

    /// Whether `fd` is free and nothing at or above `min` and below it is.
    pub open spec fn lowest_free(self, min: int, fd: int) -> bool {
        &&& min <= fd
        &&& !self@.dom().contains(fd)
        &&& forall|k: int| min <= k < fd ==> #[trigger] self@.dom().contains(k)
    }

    /// Whether every number from `min` up to the limit is taken.
    pub open spec fn full_from(self, min: int) -> bool {
        forall|k: int| min <= k < self.limit ==> #[trigger] self@.dom().contains(k)
    }

    /// An empty table.
    pub fn new() -> (table: FdTable)
        ensures
            table.wf(),
            table@ == Map::<int, Slot>::empty(),
            table.limit == DEFAULT_LIMIT,
    {
        let table = FdTable { slots: Vec::new(), limit: DEFAULT_LIMIT };
        proof {
            assert(table@ =~= Map::<int, Slot>::empty());
        }
        table
    }

    /// The slot `fd` names; `EBADF` for nothing.
    pub fn slot(&self, fd: i32) -> (slot: Result<Slot, Errno>)
        ensures
            match slot {
                Ok(s) => self@.dom().contains(fd as int) && s == self@[fd as int],
                Err(e) => !self@.dom().contains(fd as int) && e == Errno::EBADF,
            },
    {
        if fd < 0 || fd as usize >= self.slots.len() {
            return Err(Errno::EBADF);
        }
        match self.slots[fd as usize] {
            Some(slot) => Ok(slot),
            None => Err(Errno::EBADF),
        }
    }

    /// The description `fd` names; `EBADF` for nothing.
    pub fn get(&self, fd: i32) -> (file: Result<usize, Errno>)
        ensures
            match file {
                Ok(f) => self@.dom().contains(fd as int) && f == self@[fd as int].file,
                Err(e) => !self@.dom().contains(fd as int) && e == Errno::EBADF,
            },
    {
        let slot = self.slot(fd)?;
        Ok(slot.file)
    }

    /// The number [`FdTable::insert_from`] would use.
    pub fn free_from(&self, min: usize) -> (fd: Option<usize>)
        requires
            self.wf(),
        ensures
            match fd {
                Some(n) => n < self.limit && self.lowest_free(min as int, n as int),
                None => self.full_from(min as int),
            },
    {
        let mut n: usize = min;
        while n < self.limit as usize
            invariant
                self.wf(),
                min <= n,
                forall|k: int| min <= k < n ==> #[trigger] self@.dom().contains(k),
            decreases self.limit - n,
        {
            if n >= self.slots.len() {
                return Some(n);
            }
            if self.slots[n].is_none() {
                return Some(n);
            }
            assert(self@.dom().contains(n as int));
            n = n + 1;
        }
        None
    }

    /// Make slot `n` hold `slot`, with the table long enough for it.
    fn put(&mut self, n: usize, slot: Slot)
        requires
            old(self).wf(),
            n < MAX_LIMIT,
        ensures
            final(self).wf(),
            final(self).limit == old(self).limit,
            final(self)@ == old(self)@.insert(n as int, slot),
    {
        while self.slots.len() <= n
            invariant
                self.wf(),
                n < MAX_LIMIT,
                self.limit == old(self).limit,
                self@ == old(self)@,
            decreases n + 1 - self.slots@.len(),
        {
            let ghost before = self@;
            self.slots.push(None);
            proof {
                assert(self@ =~= before);
            }
        }
        let ghost before = self@;
        self.slots.set(n, Some(slot));
        proof {
            assert(self@ =~= before.insert(n as int, slot));
        }
    }

    /// Name `file` with the lowest free number; `EMFILE` when none is free.
    pub fn insert(&mut self, file: usize, cloexec: bool) -> (fd: Result<i32, Errno>)
        requires
            old(self).wf(),
        ensures
            final(self).wf(),
            final(self).limit == old(self).limit,
            match fd {
                Ok(n) => 0 <= n < old(self).limit && old(self).lowest_free(0, n as int) && final(self)@ == old(self)@.insert(n as int, Slot { file, cloexec }),
                Err(e) => old(self).full_from(0) && e == Errno::EMFILE && *final(self) == *old(self),
            },
    {
        match self.free_from(0) {
            Some(n) => {
                self.put(n, Slot { file, cloexec });
                Ok(n as i32)
            },
            None => Err(Errno::EMFILE),
        }
    }

    /// Name `file` with the lowest free number at or above `min`; `EINVAL` for
    /// a `min` no number can reach, `EMFILE` when none is free.
    pub fn insert_from(&mut self, min: i32, file: usize, cloexec: bool) -> (fd: Result<i32, Errno>)
        requires
            old(self).wf(),
        ensures
            final(self).wf(),
            final(self).limit == old(self).limit,
            match fd {
                Ok(n) => 0 <= min <= n < old(self).limit && old(self).lowest_free(
                    min as int,
                    n as int,
                ) && final(self)@ == old(self)@.insert(n as int, Slot { file, cloexec }),
                Err(e) => *final(self) == *old(self) && if min < 0 || min >= old(self).limit {
                    e == Errno::EINVAL
                } else {
                    old(self).full_from(min as int) && e == Errno::EMFILE
                },
            },
    {
        if min < 0 || min as u32 >= self.limit {
            return Err(Errno::EINVAL);
        }
        match self.free_from(min as usize) {
            Some(n) => {
                self.put(n, Slot { file, cloexec });
                Ok(n as i32)
            },
            None => Err(Errno::EMFILE),
        }
    }

    /// Make `fd` name `file`, whatever it named before; `EBADF` for a number
    /// the limit leaves out.
    pub fn install(&mut self, fd: i32, file: usize, cloexec: bool) -> (done: Result<(), Errno>)
        requires
            old(self).wf(),
        ensures
            final(self).wf(),
            final(self).limit == old(self).limit,
            match done {
                Ok(_) => 0 <= fd < old(self).limit && final(self)@ == old(self)@.insert(
                    fd as int,
                    Slot { file, cloexec },
                ),
                Err(e) => (fd < 0 || fd >= old(self).limit) && e == Errno::EBADF && *final(self)
                    == *old(self),
            },
    {
        if fd < 0 || fd as u32 >= self.limit {
            return Err(Errno::EBADF);
        }
        self.put(fd as usize, Slot { file, cloexec });
        Ok(())
    }

    /// Free `fd`, answering what it named; `EBADF` for nothing.
    pub fn remove(&mut self, fd: i32) -> (file: Result<usize, Errno>)
        requires
            old(self).wf(),
        ensures
            final(self).wf(),
            final(self).limit == old(self).limit,
            match file {
                Ok(f) => old(self)@.dom().contains(fd as int) && f == old(self)@[fd as int].file
                    && final(self)@ == old(self)@.remove(fd as int),
                Err(e) => !old(self)@.dom().contains(fd as int) && e == Errno::EBADF
                    && *final(self) == *old(self),
            },
    {
        let slot = self.slot(fd)?;
        let ghost before = self@;
        self.slots.set(fd as usize, None);
        proof {
            assert(self@ =~= before.remove(fd as int));
        }
        Ok(slot.file)
    }

    /// Set whether `execve` closes `fd`; `EBADF` for nothing.
    pub fn set_cloexec(&mut self, fd: i32, cloexec: bool) -> (done: Result<(), Errno>)
        requires
            old(self).wf(),
        ensures
            final(self).wf(),
            final(self).limit == old(self).limit,
            match done {
                Ok(_) => old(self)@.dom().contains(fd as int) && final(self)@ == old(self)@.insert(
                    fd as int,
                    Slot { file: old(self)@[fd as int].file, cloexec },
                ),
                Err(e) => !old(self)@.dom().contains(fd as int) && e == Errno::EBADF
                    && *final(self) == *old(self),
            },
    {
        let slot = self.slot(fd)?;
        self.put(fd as usize, Slot { file: slot.file, cloexec });
        Ok(())
    }

    /// Change how many numbers may be given out; `EPERM` past the largest.
    pub fn set_limit(&mut self, limit: u32) -> (done: Result<(), Errno>)
        requires
            old(self).wf(),
        ensures
            final(self).wf(),
            final(self)@ == old(self)@,
            match done {
                Ok(_) => limit <= MAX_LIMIT && final(self).limit == limit,
                Err(e) => limit > MAX_LIMIT && e == Errno::EPERM && *final(self) == *old(self),
            },
    {
        if limit > MAX_LIMIT {
            return Err(Errno::EPERM);
        }
        self.limit = limit;
        proof {
            assert(self@ =~= old(self)@);
        }
        Ok(())
    }
}

impl FdTable {
    /// Whether `execve` keeps descriptor `fd`.
    pub open spec fn survives(self, fd: int) -> bool {
        self@.dom().contains(fd) && !self@[fd].cloexec
    }

    /// The descriptions of the first `n` numbers that `execve` closes.
    pub open spec fn closing(self, n: int) -> Seq<usize>
        decreases n,
    {
        if n <= 0 {
            Seq::empty()
        } else if self@.dom().contains(n - 1) && self@[n - 1].cloexec {
            self.closing(n - 1).push(self@[n - 1].file)
        } else {
            self.closing(n - 1)
        }
    }

    /// Whether a descriptor below `n` that `execve` closes names `file`.
    pub open spec fn closes(self, file: usize, n: int) -> bool {
        exists|fd: int|
            fd < n && #[trigger] self@.dom().contains(fd) && self@[fd].cloexec && self@[fd].file
                == file
    }

    /// What is given back is what the closed descriptors named.
    pub proof fn lemma_closing_names(self, n: int)
        ensures
            forall|file: usize| #[trigger] self.closing(n).contains(file) == self.closes(file, n),
        decreases n,
    {
        if n > 0 {
            self.lemma_closing_names(n - 1);
            let before = self.closing(n - 1);
            let all = self.closing(n);
            assert forall|file: usize| #[trigger] all.contains(file) == self.closes(file, n) by {
                assert(before.contains(file) == self.closes(file, n - 1));
                if self@.dom().contains(n - 1) && self@[n - 1].cloexec {
                    if all.contains(file) {
                        let i = choose|i: int| 0 <= i < all.len() && all[i] == file;
                        if i < before.len() {
                            assert(before[i] == file);
                        }
                    }
                    if before.contains(file) {
                        let i = choose|i: int| 0 <= i < before.len() && before[i] == file;
                        assert(all[i] == file);
                    }
                    if self@[n - 1].file == file {
                        assert(all[before.len() as int] == file);
                    }
                }
                if self.closes(file, n) {
                    let fd = choose|fd: int|
                        fd < n && #[trigger] self@.dom().contains(fd) && self@[fd].cloexec
                            && self@[fd].file == file;
                    if fd < n - 1 {
                        assert(self.closes(file, n - 1));
                    }
                }
            }
        } else {
            assert forall|file: usize| #[trigger] self.closing(n).contains(file) == self.closes(
                file,
                n,
            ) by {
                if self.closes(file, n) {
                    let fd = choose|fd: int|
                        fd < n && #[trigger] self@.dom().contains(fd) && self@[fd].cloexec
                            && self@[fd].file == file;
                    assert(self@.dom().contains(fd));
                }
            }
        }
    }

    /// Close every descriptor marked close-on-exec, and give back what they
    /// named, lowest number first.
    pub fn take_cloexec(&mut self) -> (closed: Vec<usize>)
        requires
            old(self).wf(),
        ensures
            final(self).wf(),
            final(self).limit == old(self).limit,
            final(self)@ == Map::new(
                |fd: int| old(self).survives(fd),
                |fd: int| old(self)@[fd],
            ),
            closed@ == old(self).closing(MAX_LIMIT as int),
    {
        let ghost before = *self;
        let mut closed: Vec<usize> = Vec::new();
        let mut i: usize = 0;
        while i < self.slots.len()
            invariant
                before.wf(),
                self.limit == before.limit,
                self.slots@.len() == before.slots@.len(),
                i <= self.slots@.len(),
                closed@ == before.closing(i as int),
                forall|j: int|
                    0 <= j < self.slots@.len() ==> #[trigger] self.slots@[j] == (if j < i
                        && !before.survives(j) {
                        None
                    } else {
                        before.slots@[j]
                    }),
            decreases self.slots@.len() - i,
        {
            if let Some(slot) = self.slots[i] {
                if slot.cloexec {
                    closed.push(slot.file);
                    self.slots.set(i, None);
                }
            }
            i = i + 1;
        }
        proof {
            before.lemma_closing(i as int, MAX_LIMIT as int);
            assert(self@ =~= Map::new(|fd: int| before.survives(fd), |fd: int| before@[fd]));
        }
        closed
    }

    /// Past the last slot nothing is closed.
    proof fn lemma_closing(self, n: int, m: int)
        requires
            self.slots@.len() <= n <= m,
        ensures
            self.closing(m) == self.closing(n),
        decreases m - n,
    {
        if n < m {
            self.lemma_closing(n, m - 1);
        }
    }
}

/// The end of a call that makes a description and names it: the error making
/// it met, `EMFILE` for a full table, or its number, the lowest that is free.
pub fn name_new(table: &mut FdTable, made: Result<usize, Errno>, cloexec: bool) -> (result: Result<
    usize,
    Errno,
>)
    requires
        old(table).wf(),
    ensures
        final(table).wf(),
        final(table).limit == old(table).limit,
        match made {
            Err(e) => result == Err::<usize, Errno>(e) && *final(table) == *old(table),
            Ok(file) => match result {
                Ok(n) => n < old(table).limit && old(table).lowest_free(0, n as int) && final(table)@ == old(table)@.insert(n as int, Slot { file, cloexec }),
                Err(e) => e == Errno::EMFILE && old(table).full_from(0) && *final(table)
                    == *old(table),
            },
        },
{
    let file: usize = made?;
    let fd: i32 = table.insert(file, cloexec)?;
    Ok(fd as usize)
}

/// Whether every descriptor names one of the first `count` descriptions.
pub open spec fn named(table: FdTable, count: nat) -> bool {
    forall|fd: int| #[trigger] table@.dom().contains(fd) ==> table@[fd].file < count
}

/// Whether every descriptor names one of the first `count` descriptions.
pub fn all_named(table: &FdTable, count: usize) -> (yes: bool)
    ensures
        yes == named(*table, count as nat),
{
    let mut i: usize = 0;
    while i < table.slots.len()
        invariant
            i <= table.slots@.len(),
            forall|fd: int|
                0 <= fd < i && #[trigger] table@.dom().contains(fd) ==> table@[fd].file < count,
        decreases table.slots@.len() - i,
    {
        if let Some(slot) = table.slots[i] {
            if slot.file >= count {
                proof {
                    assert(table@.dom().contains(i as int));
                    assert(table@[i as int] == slot);
                }
                return false;
            }
        }
        i = i + 1;
    }
    true
}

/// A descriptor argument, which the ABI passes as a 32-bit `int`: a 64-bit
/// caller's stale upper half is ignored.
pub fn arg(value: u64) -> (fd: i32)
    ensures
        fd == spec_int(value as int),
{
    signed_32(low_u32(value))
}

/// A descriptor number as a return value.
pub open spec fn spec_number(fd: int) -> Result<usize, Errno> {
    if fd < 0 {
        Err(Errno::EBADF)
    } else {
        Ok(fd as usize)
    }
}

/// A descriptor number as a return value.
pub fn number(fd: i32) -> (out: Result<usize, Errno>)
    ensures
        out == spec_number(fd as int),
{
    if fd < 0 {
        Err(Errno::EBADF)
    } else {
        Ok(fd as usize)
    }
}

/// What the description `fd` names is, or `EBADF`.
pub open spec fn spec_file(table: FdTable, open: Seq<OpenFile>, fd: int) -> Result<OpenFile, Errno> {
    if table@.dom().contains(fd) {
        Ok(open[table@[fd].file as int])
    } else {
        Err(Errno::EBADF)
    }
}

/// What the description `fd` names is; `EBADF` for a descriptor that names
/// nothing.
pub fn file(table: &FdTable, open: &Vec<OpenFile>, fd: i32) -> (file: Result<OpenFile, Errno>)
    requires
        named(*table, open@.len()),
    ensures
        file == spec_file(*table, open@, fd as int),
{
    let k: usize = table.get(fd)?;
    Ok(open[k])
}

/// Where a relative path starts.
#[derive(Clone, Copy, Debug, PartialEq, Eq, Structural)]
pub enum Start {
    /// At the working directory, or not looked at because the path is
    /// absolute.
    Default,
    /// At the directory this description names.
    Directory(usize),
}

/// Where a `*at` call's relative path starts, by its descriptor alone.
pub open spec fn spec_start_location(table: FdTable, open: Seq<OpenFile>, dirfd: int) -> Result<
    Start,
    Errno,
> {
    if dirfd == AT_FDCWD {
        Ok(Start::Default)
    } else {
        match spec_file(table, open, dirfd) {
            Err(e) => Err(e),
            Ok(file) => if file.kind != FileType::Directory {
                Err(Errno::ENOTDIR)
            } else {
                Ok(Start::Directory(table@[dirfd].file))
            },
        }
    }
}

/// Where a `*at` call's relative path starts: the working directory for
/// `AT_FDCWD`, the directory `dirfd` names otherwise. A descriptor opened as a
/// name only is accepted.
///
/// `EBADF` for a descriptor that names nothing, `ENOTDIR` for one that names
/// something other than a directory.
pub fn start_location(table: &FdTable, open: &Vec<OpenFile>, dirfd: i32) -> (start: Result<
    Start,
    Errno,
>)
    requires
        named(*table, open@.len()),
    ensures
        start == spec_start_location(*table, open@, dirfd as int),
{
    if dirfd == AT_FDCWD {
        return Ok(Start::Default);
    }
    let k: usize = table.get(dirfd)?;
    match open[k].kind {
        FileType::Directory => Ok(Start::Directory(k)),
        _ => Err(Errno::ENOTDIR),
    }
}

/// Whether a path is absolute.
pub open spec fn absolute(path: Seq<u8>) -> bool {
    path.len() > 0 && path[0] == 0x2F
}

/// Where a particular path starts: an absolute one never looks at its
/// descriptor.
pub open spec fn spec_start_for(
    table: FdTable,
    open: Seq<OpenFile>,
    dirfd: int,
    path: Seq<u8>,
) -> Result<Start, Errno> {
    if absolute(path) {
        Ok(Start::Default)
    } else {
        spec_start_location(table, open, dirfd)
    }
}

/// [`start_location`] for a particular path. An absolute path never looks at
/// `dirfd`, so a bad one is not refused for it.
pub fn start_for(table: &FdTable, open: &Vec<OpenFile>, dirfd: i32, path: &[u8]) -> (start: Result<
    Start,
    Errno,
>)
    requires
        named(*table, open@.len()),
    ensures
        start == spec_start_for(*table, open@, dirfd as int, path@),
{
    if path.len() > 0 && path[0] == 0x2F {
        return Ok(Start::Default);
    }
    start_location(table, open, dirfd)
}

/// What a path out of the program's memory is, or why there is none.
pub open spec fn spec_user_path(space: AddressSpace, at: int) -> Result<Seq<u8>, Errno> {
    match space@.cstr(at, PATH_MAX as nat) {
        CStr::Complete(path) => Ok(path),
        CStr::TooLong => Err(Errno::ENAMETOOLONG),
        CStr::Fault => Err(Errno::EFAULT),
    }
}

/// The path `out` holds.
pub open spec fn path_of(out: Result<Vec<u8>, Errno>) -> Result<Seq<u8>, Errno> {
    match out {
        Ok(path) => Ok(path@),
        Err(e) => Err(e),
    }
}

/// A path out of the program's memory.
///
/// `ENAMETOOLONG` for one with no terminator within [`PATH_MAX`], `EFAULT` for
/// one the program cannot read.
pub fn user_path(space: &AddressSpace, at: u64) -> (path: Result<Vec<u8>, Errno>)
    requires
        space.wf(),
    ensures
        path_of(path) == spec_user_path(*space, at as int),
{
    match space.copy_cstr_from_user(at, PATH_MAX) {
        CString::Complete(path) => Ok(path),
        CString::TooLong => Err(Errno::ENAMETOOLONG),
        CString::Fault => Err(Errno::EFAULT),
    }
}

/// Descriptors 0, 1 and 2 of a new process, all naming the one open
/// description `console`.
pub fn standard_streams(console: usize) -> (table: FdTable)
    ensures
        table.wf(),
        table.limit == DEFAULT_LIMIT,
        table@.dom() == set![0int, 1, 2],
        forall|fd: int|
            0 <= fd < 3 ==> #[trigger] table@[fd] == (Slot { file: console, cloexec: false }),
{
    let slot = Slot { file: console, cloexec: false };
    let mut table = FdTable::new();
    table.put(0, slot);
    table.put(1, slot);
    table.put(2, slot);
    proof {
        assert(table@.dom() =~= set![0int, 1, 2]);
    }
    table
}

/// What an open asks the filesystem for.
#[derive(Clone, Copy, Debug, PartialEq, Eq, Structural)]
pub struct OpenFlags {
    pub read: bool,
    pub write: bool,
    pub create: bool,
    pub exclusive: bool,
    pub truncate: bool,
    pub append: bool,
    pub directory: bool,
    pub nofollow: bool,
    pub path: bool,
    pub nonblock: bool,
}

/// The bit that asks for a directory, which the machine decides.
pub open spec fn spec_directory_bit(arch: Arch) -> u32 {
    match arch {
        Arch::X86_64 => 0o200000,
        _ => 0o40000,
    }
}

/// The bit that refuses to follow a final link, which the machine decides.
pub open spec fn spec_nofollow_bit(arch: Arch) -> u32 {
    match arch {
        Arch::X86_64 => 0o400000,
        _ => 0o100000,
    }
}

/// What `open`'s flag word asks for, in this machine's bits.
pub open spec fn spec_open_flags(raw: u32, arch: Arch) -> OpenFlags {
    let directory = raw & spec_directory_bit(arch) != 0;
    let nofollow = raw & spec_nofollow_bit(arch) != 0;
    if raw & O_PATH != 0 {
        OpenFlags {
            read: false,
            write: false,
            create: false,
            exclusive: false,
            truncate: false,
            append: false,
            directory,
            nofollow,
            path: true,
            nonblock: false,
        }
    } else {
        OpenFlags {
            read: raw & O_ACCMODE == O_RDONLY || raw & O_ACCMODE == O_RDWR,
            write: raw & O_ACCMODE == O_WRONLY || raw & O_ACCMODE == O_RDWR,
            create: raw & O_CREAT != 0,
            exclusive: raw & O_EXCL != 0,
            truncate: raw & O_TRUNC != 0,
            append: raw & O_APPEND != 0,
            directory,
            nofollow,
            path: false,
            nonblock: raw & O_NONBLOCK != 0,
        }
    }
}

/// Decode `open`'s flag word with this machine's bits, into what the
/// filesystem is asked for and whether the descriptor is close-on-exec.
///
/// With `O_PATH` every flag but the directory and no-follow ones is ignored.
/// The access mode that is neither reading, writing nor both opens for
/// neither. Unknown bits are ignored.
pub fn decode_open_flags(raw: u32, arch: Arch) -> (out: (OpenFlags, bool))
    ensures
        out.0 == spec_open_flags(raw, arch),
        out.1 == (raw & O_CLOEXEC != 0),
{
    let directory_bit: u32 = match arch {
        Arch::X86_64 => 0o200000,
        _ => 0o40000,
    };
    let nofollow_bit: u32 = match arch {
        Arch::X86_64 => 0o400000,
        _ => 0o100000,
    };
    let directory = raw & directory_bit != 0;
    let nofollow = raw & nofollow_bit != 0;
    let cloexec = raw & O_CLOEXEC != 0;
    if raw & O_PATH != 0 {
        let flags = OpenFlags {
            read: false,
            write: false,
            create: false,
            exclusive: false,
            truncate: false,
            append: false,
            directory,
            nofollow,
            path: true,
            nonblock: false,
        };
        return (flags, cloexec);
    }
    let mode: u32 = raw & O_ACCMODE;
    let flags = OpenFlags {
        read: mode == O_RDONLY || mode == O_RDWR,
        write: mode == O_WRONLY || mode == O_RDWR,
        create: raw & O_CREAT != 0,
        exclusive: raw & O_EXCL != 0,
        truncate: raw & O_TRUNC != 0,
        append: raw & O_APPEND != 0,
        directory,
        nofollow,
        path: false,
        nonblock: raw & O_NONBLOCK != 0,
    };
    (flags, cloexec)
}

/// An open that may go ahead: what to ask the filesystem, and the descriptor
/// the answer will have.
#[derive(Debug)]
pub struct Opening {
    /// The path.
    pub path: Vec<u8>,
    /// Where it starts.
    pub start: Start,
    /// What is asked for.
    pub flags: OpenFlags,
    /// The permissions a created file gets.
    pub mode: u32,
    /// The descriptor the file will have.
    pub fd: usize,
    /// Whether `execve` closes it.
    pub cloexec: bool,
}

/// `openat`, and `open` with `AT_FDCWD`, up to the filesystem's part: the path
/// is read, a descriptor found for the file, and the starting point looked
/// up. [`finish_open`] does the rest.
///
/// The descriptor comes before the filesystem is asked anything, so that a
/// call refused with `EMFILE` has created nothing.
pub fn sys_openat(
    space: &AddressSpace,
    table: &FdTable,
    open: &Vec<OpenFile>,
    umask: u32,
    dirfd: i32,
    path: u64,
    raw_flags: u32,
    mode: u32,
    arch: Arch,
) -> (opening: Result<Opening, Errno>)
    requires
        space.wf(),
        table.wf(),
        named(*table, open@.len()),
    ensures
        match spec_user_path(*space, path as int) {
            Err(e) => opening == Err::<Opening, Errno>(e),
            Ok(bytes) => if table.full_from(0) {
                opening == Err::<Opening, Errno>(Errno::EMFILE)
            } else {
                match spec_start_for(*table, open@, dirfd as int, bytes) {
                    Err(e) => opening == Err::<Opening, Errno>(e),
                    Ok(start) => {
                        &&& opening matches Ok(plan)
                        &&& plan.path@ == bytes
                        &&& plan.start == start
                        &&& plan.flags == spec_open_flags(raw_flags, arch)
                        &&& plan.mode == mode & 0o7777 & !umask
                        &&& plan.fd < table.limit
                        &&& table.lowest_free(0, plan.fd as int)
                        &&& plan.cloexec == (raw_flags & O_CLOEXEC != 0)
                    },
                }
            },
        },
{
    let path = user_path(space, path)?;
    let (flags, cloexec) = decode_open_flags(raw_flags, arch);
    let fd: usize = match table.free_from(0) {
        Some(fd) => {
            assert(!table@.dom().contains(fd as int));
            fd
        },
        None => return Err(Errno::EMFILE),
    };
    let start = start_for(table, open, dirfd, path.as_slice())?;
    Ok(Opening { path, start, flags, mode: mode & 0o7777 & !umask, fd, cloexec })
}

/// The end of an open: give the file the filesystem answered its descriptor,
/// or hand its error on with nothing changed. The descriptor is still free, so
/// nothing else loses it.
pub fn finish_open(
    table: &mut FdTable,
    open: &mut Vec<OpenFile>,
    opening: &Opening,
    answer: Result<OpenFile, Errno>,
) -> (result: Result<usize, Errno>)
    requires
        old(table).wf(),
        opening.fd < old(table).limit,
        !old(table)@.dom().contains(opening.fd as int),
        named(*old(table), old(open)@.len()),
        old(open)@.len() < usize::MAX,
    ensures
        final(table).wf(),
        final(table).limit == old(table).limit,
        named(*final(table), final(open)@.len()),
        match answer {
            Err(e) => result == Err::<usize, Errno>(e) && *final(table) == *old(table)
                && final(open)@ == old(open)@,
            Ok(file) => {
                &&& result == Ok::<usize, Errno>(opening.fd)
                &&& final(open)@ == old(open)@.push(file)
                &&& final(table)@ == old(table)@.insert(
                    opening.fd as int,
                    Slot { file: old(open)@.len() as usize, cloexec: opening.cloexec },
                )
            },
        },
{
    let file = answer?;
    let place: usize = open.len();
    open.push(file);
    table.put(opening.fd, Slot { file: place, cloexec: opening.cloexec });
    Ok(opening.fd)
}

/// `close`.
pub fn sys_close(table: &mut FdTable, fd: i32) -> (result: Result<usize, Errno>)
    requires
        old(table).wf(),
    ensures
        final(table).wf(),
        final(table).limit == old(table).limit,
        if old(table)@.dom().contains(fd as int) {
            result == Ok::<usize, Errno>(0) && final(table)@ == old(table)@.remove(fd as int)
        } else {
            result == Err::<usize, Errno>(Errno::EBADF) && *final(table) == *old(table)
        },
{
    let _ = table.remove(fd)?;
    Ok(0)
}

/// `dup`: the lowest free number, naming the same description, kept across
/// `execve`.
pub fn sys_dup(table: &mut FdTable, fd: i32) -> (result: Result<usize, Errno>)
    requires
        old(table).wf(),
    ensures
        final(table).wf(),
        final(table).limit == old(table).limit,
        match result {
            Ok(n) => {
                &&& old(table)@.dom().contains(fd as int)
                &&& n < old(table).limit
                &&& old(table).lowest_free(0, n as int)
                &&& final(table)@ == old(table)@.insert(
                    n as int,
                    Slot { file: old(table)@[fd as int].file, cloexec: false },
                )
            },
            Err(e) => *final(table) == *old(table) && if !old(table)@.dom().contains(fd as int) {
                e == Errno::EBADF
            } else {
                old(table).full_from(0) && e == Errno::EMFILE
            },
        },
{
    let file: usize = table.get(fd)?;
    let new: i32 = table.insert(file, false)?;
    number(new)
}

/// What making `new` name what `old_fd` does comes to.
pub open spec fn replaced(
    before: FdTable,
    after: FdTable,
    old_fd: int,
    new: int,
    cloexec: bool,
    result: Result<usize, Errno>,
) -> bool {
    if !before@.dom().contains(old_fd) || new < 0 || new >= before.limit {
        result == Err::<usize, Errno>(Errno::EBADF) && after == before
    } else {
        &&& result == Ok::<usize, Errno>(new as usize)
        &&& after@ == before@.insert(new, Slot { file: before@[old_fd].file, cloexec })
        &&& after.limit == before.limit
    }
}

/// Make `new` name what `old_fd` does; what it named before is let go.
pub fn replace(table: &mut FdTable, old_fd: i32, new: i32, cloexec: bool) -> (result: Result<
    usize,
    Errno,
>)
    requires
        old(table).wf(),
    ensures
        final(table).wf(),
        replaced(*old(table), *final(table), old_fd as int, new as int, cloexec, result),
{
    let file: usize = table.get(old_fd)?;
    table.install(new, file, cloexec)?;
    number(new)
}

/// `dup2`: duplicating a descriptor onto itself is a check that it is open.
pub fn sys_dup2(table: &mut FdTable, old_fd: i32, new: i32) -> (result: Result<usize, Errno>)
    requires
        old(table).wf(),
    ensures
        final(table).wf(),
        if old_fd == new {
            &&& *final(table) == *old(table)
            &&& result == if old(table)@.dom().contains(new as int) {
                Ok(new as usize)
            } else {
                Err(Errno::EBADF)
            }
        } else {
            replaced(*old(table), *final(table), old_fd as int, new as int, false, result)
        },
{
    if old_fd == new {
        let _ = table.get(old_fd)?;
        return number(new);
    }
    replace(table, old_fd, new, false)
}

/// `dup3`: `EINVAL` for an unknown flag and for a descriptor onto itself.
pub fn sys_dup3(table: &mut FdTable, old_fd: i32, new: i32, flags: u32) -> (result: Result<
    usize,
    Errno,
>)
    requires
        old(table).wf(),
    ensures
        final(table).wf(),
        if flags & !O_CLOEXEC != 0 || old_fd == new {
            result == Err::<usize, Errno>(Errno::EINVAL) && *final(table) == *old(table)
        } else {
            replaced(
                *old(table),
                *final(table),
                old_fd as int,
                new as int,
                flags & O_CLOEXEC != 0,
                result,
            )
        },
{
    if flags & !O_CLOEXEC != 0 || old_fd == new {
        return Err(Errno::EINVAL);
    }
    replace(table, old_fd, new, flags & O_CLOEXEC != 0)
}

/// What `F_GETFL` reports: the access mode and the status flags.
pub open spec fn spec_status_word(file: OpenFile) -> u32 {
    let mode = if file.readable && file.writable {
        O_RDWR
    } else if file.writable {
        O_WRONLY
    } else if file.readable {
        O_RDONLY
    } else {
        O_ACCMODE
    };
    let append = if file.append {
        O_APPEND
    } else {
        0
    };
    let nonblock = if file.nonblock {
        O_NONBLOCK
    } else {
        0
    };
    if file.path_only {
        O_PATH
    } else {
        mode | append | nonblock
    }
}

/// What `F_GETFL` reports: the access mode and the status flags.
pub fn status_word(file: &OpenFile) -> (word: u32)
    ensures
        word == spec_status_word(*file),
{
    if file.path_only {
        return O_PATH;
    }
    let mode: u32 = if file.readable && file.writable {
        O_RDWR
    } else if file.writable {
        O_WRONLY
    } else if file.readable {
        O_RDONLY
    } else {
        O_ACCMODE
    };
    let append: u32 = if file.append {
        O_APPEND
    } else {
        0
    };
    let nonblock: u32 = if file.nonblock {
        O_NONBLOCK
    } else {
        0
    };
    mode | append | nonblock
}

/// A description with the two status flags `F_SETFL` may change.
pub open spec fn with_status(file: OpenFile, arg: u64) -> OpenFile {
    OpenFile {
        append: arg & (O_APPEND as u64) != 0,
        nonblock: arg & (O_NONBLOCK as u64) != 0,
        ..file
    }
}

/// `fcntl`'s descriptor and status commands. Those for record locks are
/// [`crate::records`]'s, and unknown here.
///
/// The descriptor is looked up before the command is: an unknown command on a
/// closed descriptor is `EBADF`. `F_SETFL` ignores everything but the two
/// status flags, which the file is told of, and is `EBADF` on a descriptor
/// opened as a name only, as is every command past `F_GETFL`.
pub fn sys_fcntl<B: Backend>(
    table: &mut FdTable,
    open: &mut Vec<OpenFile>,
    files: &mut Vec<B>,
    fd: i32,
    cmd: u32,
    arg: u64,
) -> (result: Result<usize, Errno>)
    requires
        old(table).wf(),
        named(*old(table), old(open)@.len()),
        old(open)@.len() == old(files)@.len(),
    ensures
        final(table).wf(),
        final(table).limit == old(table).limit,
        named(*final(table), final(open)@.len()),
        cmd != F_SETFL ==> final(open)@ == old(open)@ && final(files)@ == old(files)@,
        result is Err ==> final(files)@ == old(files)@,
        match spec_file(*old(table), old(open)@, fd as int) {
            Err(e) => result == Err::<usize, Errno>(e) && *final(table) == *old(table)
                && final(open)@ == old(open)@,
            Ok(file) => if cmd == F_DUPFD || cmd == F_DUPFD_CLOEXEC {
                if arg >= old(table).limit {
                    result == Err::<usize, Errno>(Errno::EINVAL) && *final(table) == *old(table)
                } else if old(table).full_from(arg as int) {
                    result == Err::<usize, Errno>(Errno::EMFILE) && *final(table) == *old(table)
                } else {
                    &&& result matches Ok(n)
                    &&& n < old(table).limit
                    &&& old(table).lowest_free(arg as int, n as int)
                    &&& final(table)@ == old(table)@.insert(
                        n as int,
                        Slot {
                            file: old(table)@[fd as int].file,
                            cloexec: cmd == F_DUPFD_CLOEXEC,
                        },
                    )
                }
            } else if cmd == F_GETFD {
                &&& *final(table) == *old(table)
                &&& result == Ok::<usize, Errno>(
                    if old(table)@[fd as int].cloexec {
                        1
                    } else {
                        0
                    },
                )
            } else if cmd == F_SETFD {
                &&& result == Ok::<usize, Errno>(0)
                &&& final(table)@ == old(table)@.insert(
                    fd as int,
                    Slot { file: old(table)@[fd as int].file, cloexec: arg & FD_CLOEXEC != 0 },
                )
            } else if cmd == F_GETFL {
                &&& *final(table) == *old(table)
                &&& result == Ok::<usize, Errno>(spec_status_word(file) as usize)
            } else {
                &&& *final(table) == *old(table)
                &&& if file.path_only {
                    result == Err::<usize, Errno>(Errno::EBADF) && final(open)@ == old(open)@
                } else if cmd == F_SETFL {
                    &&& result == Ok::<usize, Errno>(0)
                    &&& final(open)@ == old(open)@.update(
                        old(table)@[fd as int].file as int,
                        with_status(file, arg),
                    )
                    &&& only_asked(
                        old(files)@,
                        final(files)@,
                        old(table)@[fd as int].file as int,
                    )
                    &&& since(
                        final(files)@[old(table)@[fd as int].file as int].log(),
                        old(files)@[old(table)@[fd as int].file as int].log(),
                    ) == seq![
                        Event::SetStatus {
                            append: with_status(file, arg).append,
                            nonblock: with_status(file, arg).nonblock,
                        },
                    ]
                } else {
                    result == Err::<usize, Errno>(Errno::EINVAL) && final(open)@ == old(open)@
                }
            },
        },
{
    let slot = table.slot(fd)?;
    let k: usize = slot.file;
    let file = open[k];
    if cmd == F_DUPFD || cmd == F_DUPFD_CLOEXEC {
        if arg > i32::MAX as u64 {
            return Err(Errno::EINVAL);
        }
        let new: i32 = table.insert_from(arg as i32, k, cmd == F_DUPFD_CLOEXEC)?;
        proof {
            assert(!old(table)@.dom().contains(new as int));
        }
        number(new)
    } else if cmd == F_GETFD {
        Ok(
            if slot.cloexec {
                1
            } else {
                0
            },
        )
    } else if cmd == F_SETFD {
        table.set_cloexec(fd, arg & FD_CLOEXEC != 0)?;
        Ok(0)
    } else if cmd == F_GETFL {
        Ok(status_word(&file) as usize)
    } else if file.path_only {
        Err(Errno::EBADF)
    } else if cmd == F_SETFL {
        let changed = OpenFile {
            append: arg & (O_APPEND as u64) != 0,
            nonblock: arg & (O_NONBLOCK as u64) != 0,
            ..file
        };
        open.set(k, changed);
        files[k].set_status(changed.append, changed.nonblock);
        proof {
            assert(since(files@[k as int].log(), old(files)@[k as int].log()) =~= seq![
                Event::SetStatus { append: changed.append, nonblock: changed.nonblock },
            ]);
        }
        Ok(0)
    } else {
        Err(Errno::EINVAL)
    }
}

/// What a seek's third argument measures from.
pub open spec fn spec_whence(raw: u32) -> Result<Whence, Errno> {
    if raw == 0 {
        Ok(Whence::Start)
    } else if raw == 1 {
        Ok(Whence::Current)
    } else if raw == 2 {
        Ok(Whence::End)
    } else if raw == 3 {
        Ok(Whence::Data)
    } else if raw == 4 {
        Ok(Whence::Hole)
    } else {
        Err(Errno::EINVAL)
    }
}

/// What a seek's third argument measures from; `EINVAL` for anything else.
pub fn whence(raw: u32) -> (out: Result<Whence, Errno>)
    ensures
        out == spec_whence(raw),
{
    match raw {
        0 => Ok(Whence::Start),
        1 => Ok(Whence::Current),
        2 => Ok(Whence::End),
        3 => Ok(Whence::Data),
        4 => Ok(Whence::Hole),
        _ => Err(Errno::EINVAL),
    }
}

/// Whether the file `k` was sought once, to `reply`.
pub open spec fn sought<B: Backend>(
    before: Seq<B>,
    after: Seq<B>,
    k: int,
    offset: i64,
    whence: Whence,
    reply: Result<u64, Errno>,
) -> bool {
    &&& only_asked(before, after, k)
    &&& since(after[k].log(), before[k].log()) == seq![Event::Seek { offset, whence, reply }]
}

/// What a new offset is as a return value: `EOVERFLOW` for one the register
/// cannot carry as a non-negative number.
pub open spec fn spec_offset_value(at: u64, arch: Arch) -> Result<usize, Errno> {
    if at > arch.spec_most() || at > usize::MAX {
        Err(Errno::EOVERFLOW)
    } else {
        Ok(at as usize)
    }
}

fn seek_file<B: Backend>(
    table: &FdTable,
    files: &mut Vec<B>,
    fd: i32,
    offset: i64,
    raw: u32,
) -> (reply: Result<u64, Errno>)
    requires
        named(*table, old(files)@.len()),
    ensures
        if !table@.dom().contains(fd as int) {
            reply == Err::<u64, Errno>(Errno::EBADF) && final(files)@ == old(files)@
        } else {
            match spec_whence(raw) {
                Err(e) => reply == Err::<u64, Errno>(e) && final(files)@ == old(files)@,
                Ok(whence) => sought(
                    old(files)@,
                    final(files)@,
                    table@[fd as int].file as int,
                    offset,
                    whence,
                    reply,
                ),
            }
        },
{
    let k: usize = table.get(fd)?;
    let whence = whence(raw)?;
    let reply = files[k].seek(offset, whence);
    proof {
        let before = old(files)@[k as int].log();
        assert(since(files@[k as int].log(), before) =~= seq![
            Event::Seek { offset, whence, reply },
        ]);
    }
    reply
}

/// `lseek`. A result the return register cannot carry as a non-negative value
/// is `EOVERFLOW`, after the position has moved.
pub fn sys_lseek<B: Backend>(
    table: &FdTable,
    files: &mut Vec<B>,
    fd: i32,
    offset: i64,
    raw: u32,
    arch: Arch,
) -> (result: Result<usize, Errno>)
    requires
        named(*table, old(files)@.len()),
    ensures
        if !table@.dom().contains(fd as int) {
            result == Err::<usize, Errno>(Errno::EBADF) && final(files)@ == old(files)@
        } else {
            match spec_whence(raw) {
                Err(e) => result == Err::<usize, Errno>(e) && final(files)@ == old(files)@,
                Ok(whence) => exists|reply: Result<u64, Errno>| #[trigger]
                    sought(
                        old(files)@,
                        final(files)@,
                        table@[fd as int].file as int,
                        offset,
                        whence,
                        reply,
                    ) && result == match reply {
                        Ok(at) => spec_offset_value(at, arch),
                        Err(e) => Err(e),
                    },
            }
        },
{
    let at: u64 = seek_file(table, files, fd, offset, raw)?;
    if at > arch.most() || at > usize::MAX as u64 {
        return Err(Errno::EOVERFLOW);
    }
    Ok(at as usize)
}

/// The offset two 32-bit halves spell.
pub open spec fn spec_offset_of(high: int, low: int) -> int {
    spec_signed_64(spec_low_u32(high) * 0x1_0000_0000 + spec_low_u32(low))
}

/// `_llseek`, the 32-bit machine's 64-bit seek: the offset in two words, the
/// result through a pointer.
pub fn sys_llseek<B: Backend>(
    space: &mut AddressSpace,
    table: &FdTable,
    files: &mut Vec<B>,
    fd: i32,
    high: u64,
    low: u64,
    result_at: u64,
    raw: u32,
) -> (result: Result<usize, Errno>)
    requires
        old(space).wf(),
        named(*table, old(files)@.len()),
    ensures
        final(space).wf(),
        final(space).same_layout(*old(space)),
        if !table@.dom().contains(fd as int) {
            result == Err::<usize, Errno>(Errno::EBADF) && final(files)@ == old(files)@
                && *final(space) == *old(space)
        } else {
            match spec_whence(raw) {
                Err(e) => result == Err::<usize, Errno>(e) && final(files)@ == old(files)@
                    && *final(space) == *old(space),
                Ok(whence) => exists|reply: Result<u64, Errno>| #[trigger]
                    sought(
                        old(files)@,
                        final(files)@,
                        table@[fd as int].file as int,
                        spec_offset_of(high as int, low as int) as i64,
                        whence,
                        reply,
                    ) && match reply {
                        Err(e) => result == Err::<usize, Errno>(e) && *final(space) == *old(space),
                        Ok(at) => if old(space)@.can_write(result_at as int, 8) {
                            result == Ok::<usize, Errno>(0) && final(space)@ == old(space)@.store(
                                result_at as int,
                                le_bytes(at as nat, 8),
                            )
                        } else {
                            result == Err::<usize, Errno>(Errno::EFAULT) && *final(space)
                                == *old(space)
                        },
                    },
            }
        },
{
    let offset: i64 = signed_64((low_u32(high) as u64) * 0x1_0000_0000 + low_u32(low) as u64);
    assert(offset == spec_offset_of(high as int, low as int) as i64);
    let at: u64 = seek_file(table, files, fd, offset, raw)?;
    space.put_number(result_at, at, 8)?;
    Ok(0)
}

/// The reply behind a result that is zero when all is well.
pub open spec fn told(result: Result<usize, Errno>) -> Result<(), Errno> {
    match result {
        Ok(_) => Ok(()),
        Err(e) => Err(e),
    }
}

/// `ftruncate` and `ftruncate64`. A negative length is `EINVAL` before the
/// descriptor is looked at.
pub fn sys_ftruncate<B: Backend>(
    table: &FdTable,
    files: &mut Vec<B>,
    fd: i32,
    length: i64,
) -> (result: Result<usize, Errno>)
    requires
        named(*table, old(files)@.len()),
    ensures
        if length < 0 {
            result == Err::<usize, Errno>(Errno::EINVAL) && final(files)@ == old(files)@
        } else if !table@.dom().contains(fd as int) {
            result == Err::<usize, Errno>(Errno::EBADF) && final(files)@ == old(files)@
        } else {
            let k = table@[fd as int].file as int;
            &&& only_asked(old(files)@, final(files)@, k)
            &&& since(final(files)@[k].log(), old(files)@[k].log()) == seq![
                Event::SetLen { len: length as u64, reply: told(result) },
            ]
            &&& result matches Ok(n) ==> n == 0
        },
{
    if length < 0 {
        return Err(Errno::EINVAL);
    }
    let k: usize = table.get(fd)?;
    let reply = files[k].set_len(length as u64);
    proof {
        let before = old(files)@[k as int].log();
        assert(since(files@[k as int].log(), before) =~= seq![
            Event::SetLen { len: length as u64, reply },
        ]);
    }
    match reply {
        Ok(done) => {
            assert(done == ());
            Ok(0)
        },
        Err(e) => Err(e),
    }
}

/// What a request on a descriptor is for.
#[derive(Clone, Copy, Debug, PartialEq, Eq, Structural)]
pub enum Ioctl {
    /// A terminal's own: hand it to the console's.
    Terminal,
}

/// `ioctl`: `EBADF` for a closed descriptor, the terminal requests for the
/// console, and `ENOTTY` for every other file.
pub fn sys_ioctl(table: &FdTable, open: &Vec<OpenFile>, fd: i32) -> (result: Result<Ioctl, Errno>)
    requires
        named(*table, open@.len()),
    ensures
        result == match spec_file(*table, open@, fd as int) {
            Err(e) => Err(e),
            Ok(file) => if file.console {
                Ok(Ioctl::Terminal)
            } else {
                Err(Errno::ENOTTY)
            },
        },
{
    let file = file(table, open, fd)?;
    if file.console {
        return Ok(Ioctl::Terminal);
    }
    Err(Errno::ENOTTY)
}

// ---------------------------------------------------------------------------
// What holds of descriptors as a whole
// ---------------------------------------------------------------------------

/// There is one lowest free number, so a contract that names it says which.
pub proof fn law_the_lowest_free_number_is_one(table: FdTable, min: int, a: int, b: int)
    requires
        table.lowest_free(min, a),
        table.lowest_free(min, b),
    ensures
        a == b,
{
    if a < b {
        assert(table@.dom().contains(a));
    }
    if b < a {
        assert(table@.dom().contains(b));
    }
}

/// From any number on, either one below the limit is free and is the lowest,
/// or every one of them is taken: a call for a new descriptor always has an
/// answer, and `EMFILE` only when there is none.
pub proof fn law_a_number_is_free_or_the_table_is_full(table: FdTable, min: int)
    requires
        0 <= min <= table.limit,
    ensures
        table.full_from(min) || exists|fd: int|
            fd < table.limit && #[trigger] table.lowest_free(min, fd),
        table.full_from(min) ==> !(exists|fd: int|
            fd < table.limit && #[trigger] table.lowest_free(min, fd)),
{
    if !table.full_from(min) {
        let k = choose|k: int| min <= k < table.limit && !(#[trigger] table@.dom().contains(k));
        lemma_lowest(table, min, k);
    }
}

proof fn lemma_lowest(table: FdTable, min: int, k: int)
    requires
        min <= k < table.limit,
        !table@.dom().contains(k),
    ensures
        exists|fd: int| fd < table.limit && #[trigger] table.lowest_free(min, fd),
    decreases k - min,
{
    if table.lowest_free(min, k) {
    } else {
        let j = choose|j: int| min <= j < k && !(#[trigger] table@.dom().contains(j));
        lemma_lowest(table, min, j);
    }
}

/// A duplicate names the description the first one names, and closing either
/// leaves the other.
pub proof fn law_a_duplicate_outlives_its_original(
    before: Map<int, Slot>,
    fd: int,
    new: int,
    cloexec: bool,
)
    requires
        before.dom().contains(fd),
        new != fd,
    ensures
        ({
            let both = before.insert(new, Slot { file: before[fd].file, cloexec });
            &&& both[new].file == both[fd].file
            &&& both.remove(fd).dom().contains(new)
            &&& both.remove(fd)[new].file == before[fd].file
            &&& both.remove(new)[fd] == before[fd]
        }),
{
}

/// `F_SETFL` changes the two status flags and nothing else: not how the file
/// was opened, and not what it is.
pub proof fn law_only_two_status_flags_change(file: OpenFile, arg: u64)
    ensures
        ({
            let after = with_status(file, arg);
            &&& after.readable == file.readable
            &&& after.writable == file.writable
            &&& after.path_only == file.path_only
            &&& after.kind == file.kind
            &&& (OpenFile { append: file.append, nonblock: file.nonblock, ..after }) == file
        }),
{
}

/// What `F_GETFL` answers is how the file is open: the two lowest bits say
/// whether it is read, written or both, and a bit each whether writes go to the
/// end and whether calls wait. A file that is only a path says so, and nothing
/// else.
pub proof fn law_the_status_word_says_how_it_is_open(file: OpenFile)
    ensures
        ({
            let word = spec_status_word(file);
            &&& file.path_only ==> word == 0o10000000
            &&& !file.path_only ==> {
                &&& word & 3 == 0 <==> file.readable && !file.writable
                &&& word & 3 == 1 <==> !file.readable && file.writable
                &&& word & 3 == 2 <==> file.readable && file.writable
                &&& word & 0o2000 != 0 <==> file.append
                &&& word & 0o4000 != 0 <==> file.nonblock
                &&& word & !0o6003 == 0
            }
        }),
{
    let mode: u32 = if file.readable && file.writable {
        2
    } else if file.writable {
        1
    } else if file.readable {
        0
    } else {
        3
    };
    let append: u32 = if file.append {
        0o2000
    } else {
        0
    };
    let nonblock: u32 = if file.nonblock {
        0o4000
    } else {
        0
    };
    let word = mode | append | nonblock;
    assert(mode <= 3 && (append == 0 || append == 0o2000) && (nonblock == 0 || nonblock == 0o4000)
        && word == mode | append | nonblock ==> word & 3 == mode && word & 0o2000 == append && word
        & 0o4000 == nonblock && word & !0o6003u32 == 0) by (bit_vector);
}

/// `F_SETFL` sets each of its two flags exactly if its bit is there.
pub proof fn law_a_status_flag_is_its_bit(file: OpenFile, arg: u64)
    ensures
        with_status(file, arg).append <==> arg & 0o2000 != 0,
        with_status(file, arg).nonblock <==> arg & 0o4000 != 0,
{
}

/// An open asks for what its flags say: to read, to write or both by the two
/// lowest bits, and each thing else by its own bit, which for two of them is
/// the machine's. An open of a path alone asks for nothing but the path.
pub proof fn law_an_open_asks_for_what_its_flags_say(raw: u32, arch: Arch)
    ensures
        ({
            let flags = spec_open_flags(raw, arch);
            let path = raw & 0o10000000 != 0;
            &&& flags.path <==> path
            &&& flags.read <==> !path && (raw & 3 == 0 || raw & 3 == 2)
            &&& flags.write <==> !path && (raw & 3 == 1 || raw & 3 == 2)
            &&& flags.create <==> !path && raw & 0o100 != 0
            &&& flags.exclusive <==> !path && raw & 0o200 != 0
            &&& flags.truncate <==> !path && raw & 0o1000 != 0
            &&& flags.append <==> !path && raw & 0o2000 != 0
            &&& flags.nonblock <==> !path && raw & 0o4000 != 0
            &&& arch == Arch::X86_64 ==> (flags.directory <==> raw & 0o200000 != 0)
            &&& arch == Arch::X86_64 ==> (flags.nofollow <==> raw & 0o400000 != 0)
            &&& arch != Arch::X86_64 ==> (flags.directory <==> raw & 0o40000 != 0)
            &&& arch != Arch::X86_64 ==> (flags.nofollow <==> raw & 0o100000 != 0)
        }),
{
}

/// A descriptor that is replaced names what the other does, and every other
/// descriptor what it did.
pub proof fn law_a_replaced_descriptor_names_the_same_file(
    before: FdTable,
    after: FdTable,
    old_fd: int,
    new: int,
    cloexec: bool,
    result: Result<usize, Errno>,
    other: int,
)
    requires
        replaced(before, after, old_fd, new, cloexec, result),
    ensures
        result is Ok <==> before@.dom().contains(old_fd) && 0 <= new < before.limit,
        result matches Err(e) ==> e == Errno::EBADF && after == before,
        result matches Ok(n) ==> {
            &&& n == new
            &&& after@.dom().contains(new) && after@[new].file == before@[old_fd].file
            &&& after@[new].cloexec == cloexec
            &&& other != new ==> after@.dom().contains(other) == before@.dom().contains(other)
            &&& other != new && before@.dom().contains(other) ==> after@[other] == before@[other]
        },
{
}

/// A path is looked up from where it says: the root for an absolute one, the
/// working directory for its own number, and else the directory a descriptor
/// names.
pub proof fn law_a_path_starts_where_it_says(
    table: FdTable,
    open: Seq<OpenFile>,
    dirfd: int,
    path: Seq<u8>,
)
    ensures
        ({
            let start = spec_start_for(table, open, dirfd, path);
            let from_root = path.len() > 0 && path[0] == 0x2F;
            let file = open[table@[dirfd].file as int];
            &&& from_root || dirfd == -100 ==> start == Ok::<Start, Errno>(Start::Default)
            &&& !from_root && dirfd != -100 ==> {
                &&& !table@.dom().contains(dirfd) ==> start == Err::<Start, Errno>(Errno::EBADF)
                &&& table@.dom().contains(dirfd) && file.kind != FileType::Directory ==> start
                    == Err::<Start, Errno>(Errno::ENOTDIR)
                &&& table@.dom().contains(dirfd) && file.kind == FileType::Directory ==> start
                    == Ok::<Start, Errno>(Start::Directory(table@[dirfd].file))
            }
        }),
{
}

/// A path is the string at its address; one without an end in a page is too
/// long, and one that cannot be read is a fault.
pub proof fn law_a_path_is_the_string_at_its_address(space: AddressSpace, at: int)
    ensures
        spec_user_path(space, at) matches Ok(path) ==> space@.cstr(at, 4096) == CStr::Complete(
            path,
        ),
        spec_user_path(space, at) == Err::<Seq<u8>, Errno>(Errno::ENAMETOOLONG) <==> space@.cstr(
            at,
            4096,
        ) == CStr::TooLong,
        spec_user_path(space, at) == Err::<Seq<u8>, Errno>(Errno::EFAULT) <==> space@.cstr(
            at,
            4096,
        ) == CStr::Fault,
{
}

/// A seek is measured from the start, the offset, the end, the next data or the
/// next hole, by number, and from nothing else.
pub proof fn law_a_seek_is_measured_by_its_number(raw: u32)
    ensures
        raw == 0 <==> spec_whence(raw) == Ok::<Whence, Errno>(Whence::Start),
        raw == 1 <==> spec_whence(raw) == Ok::<Whence, Errno>(Whence::Current),
        raw == 2 <==> spec_whence(raw) == Ok::<Whence, Errno>(Whence::End),
        raw == 3 <==> spec_whence(raw) == Ok::<Whence, Errno>(Whence::Data),
        raw == 4 <==> spec_whence(raw) == Ok::<Whence, Errno>(Whence::Hole),
        raw > 4 <==> spec_whence(raw) == Err::<Whence, Errno>(Errno::EINVAL),
{
}

/// An offset is answered as it is where the machine's word can say it, and a
/// pair of halves makes one whole.
pub proof fn law_an_offset_is_whole(at: u64, high: int, low: int, arch: Arch)
    requires
        0 <= high <= 0xFFFF_FFFF,
        0 <= low <= 0xFFFF_FFFF,
    ensures
        spec_offset_value(at, arch) matches Ok(n) ==> n == at,
        spec_offset_value(at, arch) matches Err(e) ==> e == Errno::EOVERFLOW,
        arch == Arch::Arm && at > 0x7FFF_FFFF ==> spec_offset_value(at, arch) is Err,
        at <= 0x7FFF_FFFF ==> spec_offset_value(at, arch) is Ok,
        arch != Arch::Arm && at <= 0x7FFF_FFFF_FFFF_FFFF && at <= usize::MAX ==> spec_offset_value(
            at,
            arch,
        ) is Ok,
        (high * 0x1_0000_0000 + low - spec_offset_of(high, low)) % 0x1_0000_0000_0000_0000 == 0,
        -0x8000_0000_0000_0000 <= spec_offset_of(high, low) <= 0x7FFF_FFFF_FFFF_FFFF,
{
}

/// What `execve` closes is what is marked, lowest number first; everything else
/// stays.
pub proof fn law_only_marked_descriptors_are_closed(table: FdTable, fd: int)
    ensures
        table.survives(fd) <==> table@.dom().contains(fd) && !table@[fd].cloexec,
{
}

/// A description is found through its descriptor alone.
pub proof fn law_a_descriptor_names_its_description(
    table: FdTable,
    open: Seq<OpenFile>,
    fd: int,
)
    ensures
        table@.dom().contains(fd) ==> spec_file(table, open, fd) == Ok::<OpenFile, Errno>(
            open[table@[fd].file as int],
        ),
        !table@.dom().contains(fd) ==> spec_file(table, open, fd) == Err::<OpenFile, Errno>(
            Errno::EBADF,
        ),
        0 <= fd < table.slots@.len() && table.slots@[fd] is Some ==> table@.dom().contains(fd)
            && table@[fd] == table.slots@[fd]->0,
        table@.dom().contains(fd) ==> 0 <= fd < table.slots@.len() && table.slots@[fd] is Some,
{
}

/// A descriptor's number is any that is not negative.
pub proof fn law_a_number_is_not_negative(fd: i32)
    ensures
        spec_number(fd as int) is Ok <==> fd >= 0,
        spec_number(fd as int) matches Ok(n) ==> n == fd,
        spec_number(fd as int) matches Err(e) ==> e == Errno::EBADF,
{
}

} // verus!
