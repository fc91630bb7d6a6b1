//! The calls about a filesystem as a whole rather than one file in it:
//! `statfs`, `sync` and its kin, `truncate`, `fallocate`, `chroot`, `mount`,
//! `umount2`, `pivot_root` and the extended attributes.
//!
//! No filesystem keeps extended attributes, so every file answers that it has
//! none: getting one is `ENODATA`, a list is empty, and setting or removing
//! one is `EOPNOTSUPP`. The path or the descriptor is resolved first.

use vstd::prelude::*;

use crate::abi::{low_u32, signed_32, signed_64, spec_int, spec_low_u32, spec_signed_32, spec_signed_64, Arch};
use crate::credentials::{require_privilege, Credentials};
use crate::errno::Errno;
use crate::fd::{
    arg, file, named, spec_file, spec_user_path, user_path, FdTable, FileType, OpenFile,
};
use crate::file::{only_asked, since, Backend, Event};
use crate::nr::Syscall;
use crate::uaccess::{AddressSpace, Memory};

verus! {

/// Leave the file's length alone.
pub const FALLOC_FL_KEEP_SIZE: u32 = 1;

/// Bytes in the packed `struct statfs64`.
pub const STATFS64_PACKED: u64 = 84;

/// Bytes in the unpacked one.
pub const STATFS64_UNPACKED: u64 = 88;

/// Nothing on it can be written.
pub const MS_RDONLY: u32 = 1;

/// The flags that ask to change a mount rather than make one: remount, bind,
/// move, and the four about propagation.
pub const REFUSED_MOUNT_FLAGS: u32 = 0x1E_3020;

/// The part of the flags old programs put a magic number in.
pub const MS_MGC_MSK: u32 = 0xFFFF_0000;

/// The magic number.
pub const MS_MGC_VAL: u32 = 0xC0ED_0000;

/// Unmount even a busy one.
pub const MNT_FORCE: u32 = 1;

/// Unmount once nothing uses it.
pub const MNT_DETACH: u32 = 2;

/// Mark it, and unmount it the next time.
pub const MNT_EXPIRE: u32 = 4;

/// Do not follow a symbolic link.
pub const UMOUNT_NOFOLLOW: u32 = 8;

// ---------------------------------------------------------------------------
// statfs
// ---------------------------------------------------------------------------

/// What writing a filesystem's record comes to, given the record or why there
/// is none.
pub open spec fn spec_write_statfs(m: Memory, buf: u64, record: Result<Seq<u8>, Errno>) -> (
    Memory,
    Result<usize, Errno>,
) {
    match record {
        Err(e) => (m, Err(e)),
        Ok(bytes) => match m.put(buf as int, bytes) {
            Ok(after) => (after, Ok(0)),
            Err(e) => (m, Err(e)),
        },
    }
}

/// What a record holds.
pub open spec fn record_of(record: Result<Vec<u8>, Errno>) -> Result<Seq<u8>, Errno> {
    match record {
        Ok(bytes) => Ok(bytes@),
        Err(e) => Err(e),
    }
}

/// `statfs`: put what the filesystem a path is on says into the program's
/// buffer, given its record or why there is none.
pub fn sys_statfs(space: &mut AddressSpace, record: Result<Vec<u8>, Errno>, buf: u64) -> (result:
    Result<usize, Errno>)
    requires
        old(space).wf(),
    ensures
        final(space).wf(),
        final(space).same_layout(*old(space)),
        (final(space)@, result) == spec_write_statfs(old(space)@, buf, record_of(record)),
{
    let bytes = match record {
        Ok(bytes) => bytes,
        Err(e) => return Err(e),
    };
    space.copy_to_user(buf, bytes.as_slice())?;
    Ok(0)
}

/// `fstatfs`: the filesystem an open file is on. A descriptor that is only a
/// path is enough; `EBADF` for one that names nothing.
pub fn sys_fstatfs(
    space: &mut AddressSpace,
    table: &FdTable,
    open: &Vec<OpenFile>,
    fd: i32,
    record: Result<Vec<u8>, Errno>,
    buf: u64,
) -> (result: Result<usize, Errno>)
    requires
        old(space).wf(),
        named(*table, open@.len()),
    ensures
        final(space).wf(),
        final(space).same_layout(*old(space)),
        (final(space)@, result) == match spec_file(*table, open@, fd as int) {
            Err(e) => (old(space)@, Err::<usize, Errno>(e)),
            Ok(_) => spec_write_statfs(old(space)@, buf, record_of(record)),
        },
{
    let _found = file(table, open, fd)?;
    sys_statfs(space, record, buf)
}

/// Whether a size is one of the two a `struct statfs64` has.
pub open spec fn statfs64_fits(size: u64) -> bool {
    size == STATFS64_PACKED || size == STATFS64_UNPACKED
}

/// `statfs64`'s size argument: the packed structure, or the unpacked one,
/// which is taken as the same thing. Checked before the path is looked at.
pub fn statfs64_size(size: u64) -> (checked: Result<(), Errno>)
    ensures
        match checked {
            Ok(_) => statfs64_fits(size),
            Err(e) => e == Errno::EINVAL && !statfs64_fits(size),
        },
{
    if size == STATFS64_PACKED || size == STATFS64_UNPACKED {
        Ok(())
    } else {
        Err(Errno::EINVAL)
    }
}

/// `statfs64`: [`sys_statfs`] into the packed structure.
pub fn sys_statfs64(
    space: &mut AddressSpace,
    size: u64,
    record: Result<Vec<u8>, Errno>,
    buf: u64,
) -> (result: Result<usize, Errno>)
    requires
        old(space).wf(),
    ensures
        final(space).wf(),
        final(space).same_layout(*old(space)),
        (final(space)@, result) == if !statfs64_fits(size) {
            (old(space)@, Err::<usize, Errno>(Errno::EINVAL))
        } else {
            spec_write_statfs(old(space)@, buf, record_of(record))
        },
{
    statfs64_size(size)?;
    sys_statfs(space, record, buf)
}

/// `fstatfs64`: the size is checked first.
pub fn sys_fstatfs64(
    space: &mut AddressSpace,
    table: &FdTable,
    open: &Vec<OpenFile>,
    fd: i32,
    size: u64,
    record: Result<Vec<u8>, Errno>,
    buf: u64,
) -> (result: Result<usize, Errno>)
    requires
        old(space).wf(),
        named(*table, open@.len()),
    ensures
        final(space).wf(),
        final(space).same_layout(*old(space)),
        (final(space)@, result) == if !statfs64_fits(size) {
            (old(space)@, Err::<usize, Errno>(Errno::EINVAL))
        } else {
            match spec_file(*table, open@, fd as int) {
                Err(e) => (old(space)@, Err(e)),
                Ok(_) => spec_write_statfs(old(space)@, buf, record_of(record)),
            }
        },
{
    statfs64_size(size)?;
    sys_fstatfs(space, table, open, fd, record, buf)
}

// ---------------------------------------------------------------------------
// Writing out, and lengths
// ---------------------------------------------------------------------------

/// An open file a call that acts through a descriptor may use: `EBADF` for
/// nothing, and for one that is only a path.
pub open spec fn spec_usable(table: FdTable, open: Seq<OpenFile>, fd: int) -> Result<
    OpenFile,
    Errno,
> {
    match spec_file(table, open, fd) {
        Err(e) => Err(e),
        Ok(file) => if file.path_only {
            Err(Errno::EBADF)
        } else {
            Ok(file)
        },
    }
}

/// An open file a call that acts through a descriptor may use.
pub fn usable(table: &FdTable, open: &Vec<OpenFile>, fd: i32) -> (found: Result<OpenFile, Errno>)
    requires
        named(*table, open@.len()),
    ensures
        found == spec_usable(*table, open@, fd as int),
{
    let found = file(table, open, fd)?;
    if found.path_only {
        return Err(Errno::EBADF);
    }
    Ok(found)
}

/// The filesystem `syncfs` writes out: the one the descriptor's file is on.
/// `EBADF` for a descriptor that names nothing; one that is only a path has a
/// filesystem like any other.
pub fn syncfs_target(table: &FdTable, open: &Vec<OpenFile>, fd: i32) -> (target: Result<u64, Errno>)
    requires
        named(*table, open@.len()),
    ensures
        target == match spec_file(*table, open@, fd as int) {
            Err(e) => Err::<u64, Errno>(e),
            Ok(found) => Ok(found.filesystem),
        },
{
    let found = file(table, open, fd)?;
    Ok(found.filesystem)
}

/// `syncfs`: write out the filesystem [`syncfs_target`] names, given what that
/// came to. `EBADF` for a descriptor that names nothing.
pub fn sys_syncfs(
    table: &FdTable,
    open: &Vec<OpenFile>,
    fd: i32,
    written: Result<(), Errno>,
) -> (result: Result<usize, Errno>)
    requires
        named(*table, open@.len()),
    ensures
        result == match spec_file(*table, open@, fd as int) {
            Err(e) => Err::<usize, Errno>(e),
            Ok(_) => match written {
                Ok(_) => Ok(0),
                Err(e) => Err(e),
            },
        },
{
    let _found = file(table, open, fd)?;
    match written {
        Ok(_) => Ok(0),
        Err(e) => Err(e),
    }
}

/// `sync`: write out every filesystem there is, one after the other, going on
/// past one that fails. It has no error to give, whatever came of each.
pub fn sys_sync<B: Backend>(filesystems: &mut Vec<B>) -> (result: Result<usize, Errno>)
    ensures
        result == Ok::<usize, Errno>(0),
        final(filesystems)@.len() == old(filesystems)@.len(),
        forall|i: int|
            0 <= i < old(filesystems)@.len() ==> {
                let before = old(filesystems)@[i].log();
                let asked = since((#[trigger] final(filesystems)@[i]).log(), before);
                &&& before.is_prefix_of(final(filesystems)@[i].log())
                &&& asked.len() == 1
                &&& (asked[0] matches Event::Sync { data_only, .. } && !data_only)
            },
{
    let mut i: usize = 0;
    while i < filesystems.len()
        invariant
            i <= filesystems@.len(),
            filesystems@.len() == old(filesystems)@.len(),
            forall|j: int|
                0 <= j < i ==> {
                    let before = old(filesystems)@[j].log();
                    let asked = since((#[trigger] filesystems@[j]).log(), before);
                    &&& before.is_prefix_of(filesystems@[j].log())
                    &&& asked.len() == 1
                    &&& (asked[0] matches Event::Sync { data_only, .. } && !data_only)
                },
            forall|j: int|
                i <= j < filesystems@.len() ==> #[trigger] filesystems@[j] == old(filesystems)@[j],
        decreases filesystems@.len() - i,
    {
        let reply = filesystems[i].sync(false);
        proof {
            let before = old(filesystems)@[i as int].log();
            assert(since(filesystems@[i as int].log(), before) =~= seq![
                Event::Sync { data_only: false, reply },
            ]);
        }
        i = i + 1;
    }
    Ok(0)
}

/// `fsync` and `fdatasync`: write one file out and wait for it. `EINVAL` for
/// an object with no storage to sync.
pub fn sys_fsync<B: Backend>(
    table: &FdTable,
    open: &Vec<OpenFile>,
    files: &mut Vec<B>,
    fd: i32,
    data_only: bool,
) -> (result: Result<usize, Errno>)
    requires
        named(*table, open@.len()),
        open@.len() == old(files)@.len(),
    ensures
        match spec_usable(*table, open@, fd as int) {
            Err(e) => result == Err::<usize, Errno>(e) && final(files)@ == old(files)@,
            Ok(found) => if found.kind != FileType::Regular && found.kind
                != FileType::Directory {
                result == Err::<usize, Errno>(Errno::EINVAL) && final(files)@ == old(files)@
            } else {
                let k = table@[fd as int].file as int;
                &&& only_asked(old(files)@, final(files)@, k)
                &&& since(final(files)@[k].log(), old(files)@[k].log()) == seq![
                    Event::Sync {
                        data_only,
                        reply: match result {
                            Ok(_) => Ok(()),
                            Err(e) => Err(e),
                        },
                    },
                ]
                &&& result matches Ok(n) ==> n == 0
            },
        },
{
    let found = usable(table, open, fd)?;
    if !matches!(found.kind, FileType::Regular | FileType::Directory) {
        return Err(Errno::EINVAL);
    }
    let k: usize = table.get(fd)?;
    let reply = files[k].sync(data_only);
    proof {
        let before = old(files)@[k as int].log();
        assert(since(files@[k as int].log(), before) =~= seq![Event::Sync { data_only, reply }]);
    }
    match reply {
        Ok(done) => {
            assert(done == ());
            Ok(0)
        },
        Err(e) => Err(e),
    }
}

/// The answer of `readahead`.
pub open spec fn spec_readahead(table: FdTable, open: Seq<OpenFile>, fd: int, count: u64) -> Result<
    usize,
    Errno,
> {
    match spec_file(table, open, fd) {
        Err(e) => Err(e),
        Ok(file) => if !file.readable {
            Err(Errno::EBADF)
        } else if file.kind != FileType::Regular || count > i64::MAX {
            Err(Errno::EINVAL)
        } else {
            Ok(0)
        },
    }
}

/// `readahead`: done as soon as it is asked, because there is no cache to
/// fill. `EBADF` for a descriptor not open for reading; `EINVAL` for anything
/// but a regular file, and for a count too large to be an offset.
pub fn sys_readahead(table: &FdTable, open: &Vec<OpenFile>, fd: i32, count: u64) -> (result: Result<
    usize,
    Errno,
>)
    requires
        named(*table, open@.len()),
    ensures
        result == spec_readahead(*table, open@, fd as int, count),
{
    let found = file(table, open, fd)?;
    if !found.readable {
        return Err(Errno::EBADF);
    }
    if found.kind != FileType::Regular || count > i64::MAX as u64 {
        return Err(Errno::EINVAL);
    }
    Ok(0)
}

/// `readahead`'s count: the third register, and on a 32-bit machine, where the
/// offset takes an aligned pair of them, the low half of the fifth.
pub open spec fn spec_readahead_count(a: Seq<u64>, arch: Arch) -> u64 {
    match arch {
        Arch::Arm => spec_low_u32(a[4] as int) as u64,
        _ => a[2],
    }
}

/// `readahead`'s count register.
pub fn readahead_count(a: &[u64; 6], arch: Arch) -> (count: u64)
    ensures
        count == spec_readahead_count(a@, arch),
{
    match arch {
        Arch::Arm => low_u32(a[4]) as u64,
        _ => a[2],
    }
}

/// `truncate` and `truncate64`: the length to set, once the path has been
/// resolved. A negative one is `EINVAL` before the path is read.
pub fn sys_truncate(length: i64) -> (len: Result<u64, Errno>)
    ensures
        len == if length < 0 {
            Err::<u64, Errno>(Errno::EINVAL)
        } else {
            Ok(length as u64)
        },
{
    if length < 0 {
        return Err(Errno::EINVAL);
    }
    Ok(length as u64)
}

/// Whether `truncate` may set a length, asked before it does: of a regular
/// file alone the caller must be allowed to write it, and what is no regular
/// file is refused by its filesystem or not at all.
pub open spec fn spec_may_truncate(
    found: Result<FileType, Errno>,
    may_write: Result<(), Errno>,
) -> Result<(), Errno> {
    match found {
        Err(e) => Err(e),
        Ok(kind) => if kind == FileType::Regular {
            may_write
        } else {
            Ok(())
        },
    }
}

/// Whether `truncate` may set the length of what its path led to.
pub fn may_truncate(found: Result<FileType, Errno>, may_write: Result<(), Errno>) -> (allowed:
    Result<(), Errno>)
    ensures
        allowed == spec_may_truncate(found, may_write),
{
    match found {
        Err(e) => Err(e),
        Ok(FileType::Regular) => may_write,
        Ok(_) => Ok(()),
    }
}

/// `truncate`, once its path was looked up: set the length of `file`, which is
/// what the path led to, and answer what that came to. No length is set
/// without permission.
pub fn truncated<B: Backend>(
    found: Result<FileType, Errno>,
    may_write: Result<(), Errno>,
    file: &mut B,
    len: u64,
) -> (result: Result<usize, Errno>)
    ensures
        match spec_may_truncate(found, may_write) {
            Err(e) => result == Err::<usize, Errno>(e) && *final(file) == *old(file),
            Ok(_) => {
                &&& final(file).log() == old(file).log().push(
                    Event::SetLen {
                        len,
                        reply: match result {
                            Ok(_) => Ok(()),
                            Err(e) => Err(e),
                        },
                    },
                )
                &&& result matches Ok(n) ==> n == 0
            },
        },
{
    may_truncate(found, may_write)?;
    match file.set_len(len) {
        Ok(done) => {
            assert(done == ());
            Ok(0)
        },
        Err(e) => Err(e),
    }
}

/// What `fallocate` makes a file's length at least: `None` for one it leaves
/// alone; or why it is refused.
///
/// A negative offset or a length that is not positive is `EINVAL`; a mode it
/// does not have is `EOPNOTSUPP`; a descriptor not open for writing `EBADF`; a
/// pipe `ESPIPE`, a directory `EISDIR` and any other thing that is no file
/// `ENODEV`; and an end past the largest offset `EFBIG`.
pub open spec fn spec_fallocate(
    table: FdTable,
    open: Seq<OpenFile>,
    fd: int,
    mode: u32,
    offset: int,
    len: int,
) -> Result<Option<u64>, Errno> {
    match spec_usable(table, open, fd) {
        Err(e) => Err(e),
        Ok(file) => if offset < 0 || len <= 0 {
            Err(Errno::EINVAL)
        } else if mode & !FALLOC_FL_KEEP_SIZE != 0 {
            Err(Errno::EOPNOTSUPP)
        } else if !file.writable {
            Err(Errno::EBADF)
        } else if file.kind == FileType::Fifo {
            Err(Errno::ESPIPE)
        } else if file.kind == FileType::Directory {
            Err(Errno::EISDIR)
        } else if file.kind != FileType::Regular {
            Err(Errno::ENODEV)
        } else if offset + len > i64::MAX {
            Err(Errno::EFBIG)
        } else if mode & FALLOC_FL_KEEP_SIZE != 0 {
            Ok(None)
        } else {
            Ok(Some((offset + len) as u64))
        },
    }
}

/// Check a `fallocate`.
fn allocating(
    table: &FdTable,
    open: &Vec<OpenFile>,
    fd: i32,
    mode: u32,
    offset: i64,
    len: i64,
) -> (end: Result<Option<u64>, Errno>)
    requires
        named(*table, open@.len()),
    ensures
        end == spec_fallocate(*table, open@, fd as int, mode, offset as int, len as int),
{
    let found = usable(table, open, fd)?;
    if offset < 0 || len <= 0 {
        return Err(Errno::EINVAL);
    }
    if mode & !FALLOC_FL_KEEP_SIZE != 0 {
        return Err(Errno::EOPNOTSUPP);
    }
    if !found.writable {
        return Err(Errno::EBADF);
    }
    match found.kind {
        FileType::Regular => {},
        FileType::Fifo => return Err(Errno::ESPIPE),
        FileType::Directory => return Err(Errno::EISDIR),
        _ => return Err(Errno::ENODEV),
    }
    if offset > i64::MAX - len {
        return Err(Errno::EFBIG);
    }
    if mode & FALLOC_FL_KEEP_SIZE != 0 {
        return Ok(None);
    }
    Ok(Some((offset + len) as u64))
}

/// `fallocate`: grow the file to cover the range if it does not already. It
/// never shrinks it, and one asked to leave the length alone has nothing to
/// do.
pub fn sys_fallocate<B: Backend>(
    table: &FdTable,
    open: &Vec<OpenFile>,
    files: &mut Vec<B>,
    fd: i32,
    mode: u32,
    offset: i64,
    len: i64,
) -> (result: Result<usize, Errno>)
    requires
        named(*table, open@.len()),
        open@.len() == old(files)@.len(),
    ensures
        match spec_fallocate(*table, open@, fd as int, mode, offset as int, len as int) {
            Err(e) => result == Err::<usize, Errno>(e) && final(files)@ == old(files)@,
            Ok(None) => result == Ok::<usize, Errno>(0) && final(files)@ == old(files)@,
            Ok(Some(end)) => {
                let k = table@[fd as int].file as int;
                &&& only_asked(old(files)@, final(files)@, k)
                &&& since(final(files)@[k].log(), old(files)@[k].log()) == seq![
                    Event::GrowTo {
                        len: end,
                        reply: match result {
                            Ok(_) => Ok(()),
                            Err(e) => Err(e),
                        },
                    },
                ]
                &&& result matches Ok(n) ==> n == 0
            },
        },
{
    let end: u64 = match allocating(table, open, fd, mode, offset, len)? {
        None => return Ok(0),
        Some(end) => end,
    };
    let k: usize = table.get(fd)?;
    let reply = files[k].grow_to(end);
    proof {
        let before = old(files)@[k as int].log();
        assert(since(files@[k as int].log(), before) =~= seq![Event::GrowTo { len: end, reply }]);
    }
    match reply {
        Ok(done) => {
            assert(done == ());
            Ok(0)
        },
        Err(e) => Err(e),
    }
}

// ---------------------------------------------------------------------------
// The tree: chroot, mount, umount2
// ---------------------------------------------------------------------------

/// `chroot`: whether the place a path names may become the process's root: a
/// directory (`ENOTDIR`) the caller may search, and the caller privileged
/// (`EPERM`).
pub fn sys_chroot(
    found: Result<FileType, Errno>,
    may_search: Result<(), Errno>,
    credentials: &Credentials,
) -> (result: Result<usize, Errno>)
    ensures
        result == match found {
            Err(e) => Err::<usize, Errno>(e),
            Ok(kind) => if kind != FileType::Directory {
                Err(Errno::ENOTDIR)
            } else if may_search is Err {
                Err(may_search->Err_0)
            } else if !credentials@.privileged() {
                Err(Errno::EPERM)
            } else {
                Ok(0)
            },
        },
{
    let kind = match found {
        Ok(kind) => kind,
        Err(e) => return Err(e),
    };
    if kind != FileType::Directory {
        return Err(Errno::ENOTDIR);
    }
    if let Err(e) = may_search {
        return Err(e);
    }
    require_privilege(credentials)?;
    Ok(0)
}

/// A filesystem to make.
#[derive(Clone, Copy, Debug, PartialEq, Eq, Structural)]
pub enum Filesystem {
    /// In memory.
    Tmpfs,
    /// The processes.
    Proc,
    /// The devices.
    Devtmpfs,
    /// The control groups.
    Cgroup2,
    /// The one on the disk that the source names.
    Btrfs { source: u64, read_only: bool },
}

/// `tmpfs`.
pub open spec fn name_tmpfs() -> Seq<u8> {
    seq![0x74u8, 0x6D, 0x70, 0x66, 0x73]
}

/// `proc`.
pub open spec fn name_proc() -> Seq<u8> {
    seq![0x70u8, 0x72, 0x6F, 0x63]
}

/// `devtmpfs`.
pub open spec fn name_devtmpfs() -> Seq<u8> {
    seq![0x64u8, 0x65, 0x76, 0x74, 0x6D, 0x70, 0x66, 0x73]
}

/// `cgroup2`.
pub open spec fn name_cgroup2() -> Seq<u8> {
    seq![0x63u8, 0x67, 0x72, 0x6F, 0x75, 0x70, 0x32]
}

/// `btrfs`.
pub open spec fn name_btrfs() -> Seq<u8> {
    seq![0x62u8, 0x74, 0x72, 0x66, 0x73]
}

/// The filesystem a `mount` type names.
///
/// The three that cannot refuse a write refuse to be read-only (`EINVAL`);
/// `btrfs` needs a source (`EINVAL`); and every other name is `ENODEV`.
pub open spec fn spec_filesystem_named(name: Seq<u8>, source: u64, read_only: bool) -> Result<
    Filesystem,
    Errno,
> {
    if name == name_tmpfs() || name == name_proc() || name == name_devtmpfs() {
        if read_only {
            Err(Errno::EINVAL)
        } else if name == name_tmpfs() {
            Ok(Filesystem::Tmpfs)
        } else if name == name_proc() {
            Ok(Filesystem::Proc)
        } else {
            Ok(Filesystem::Devtmpfs)
        }
    } else if name == name_cgroup2() {
        Ok(Filesystem::Cgroup2)
    } else if name == name_btrfs() {
        if source == 0 {
            Err(Errno::EINVAL)
        } else {
            Ok(Filesystem::Btrfs { source, read_only })
        }
    } else {
        Err(Errno::ENODEV)
    }
}

/// Whether two texts are the same.
fn same(a: &[u8], b: &[u8]) -> (yes: bool)
    ensures
        yes == (a@ == b@),
{
    if a.len() != b.len() {
        return false;
    }
    let mut i: usize = 0;
    while i < a.len()
        invariant
            a@.len() == b@.len(),
            i <= a@.len(),
            forall|j: int| 0 <= j < i ==> a@[j] == b@[j],
        decreases a@.len() - i,
    {
        if a[i] != b[i] {
            return false;
        }
        i = i + 1;
    }
    assert(a@ =~= b@);
    true
}

/// The filesystem a `mount` type names.
pub fn filesystem_named(name: &[u8], source: u64, read_only: bool) -> (found: Result<
    Filesystem,
    Errno,
>)
    ensures
        found == spec_filesystem_named(name@, source, read_only),
{
    let tmpfs: [u8; 5] = [0x74, 0x6D, 0x70, 0x66, 0x73];
    let proc: [u8; 4] = [0x70, 0x72, 0x6F, 0x63];
    let devtmpfs: [u8; 8] = [0x64, 0x65, 0x76, 0x74, 0x6D, 0x70, 0x66, 0x73];
    let cgroup2: [u8; 7] = [0x63, 0x67, 0x72, 0x6F, 0x75, 0x70, 0x32];
    let btrfs: [u8; 5] = [0x62, 0x74, 0x72, 0x66, 0x73];
    proof {
        assert(tmpfs@ =~= name_tmpfs());
        assert(proc@ =~= name_proc());
        assert(devtmpfs@ =~= name_devtmpfs());
        assert(cgroup2@ =~= name_cgroup2());
        assert(btrfs@ =~= name_btrfs());
        assert(name_tmpfs()[0] != name_btrfs()[0]);
        assert(name_tmpfs().len() != name_proc().len());
        assert(name_tmpfs().len() != name_devtmpfs().len());
        assert(name_proc().len() != name_devtmpfs().len());
    }
    let memory = if same(name, &tmpfs) {
        Some(Filesystem::Tmpfs)
    } else if same(name, &proc) {
        Some(Filesystem::Proc)
    } else if same(name, &devtmpfs) {
        Some(Filesystem::Devtmpfs)
    } else {
        None
    };
    if let Some(found) = memory {
        return if read_only {
            Err(Errno::EINVAL)
        } else {
            Ok(found)
        };
    }
    if same(name, &cgroup2) {
        return Ok(Filesystem::Cgroup2);
    }
    if same(name, &btrfs) {
        return if source == 0 {
            Err(Errno::EINVAL)
        } else {
            Ok(Filesystem::Btrfs { source, read_only })
        };
    }
    Err(Errno::ENODEV)
}

/// Whether a source names a disk: `ENOTBLK` for anything but a block device.
pub fn source_disk(found: Result<FileType, Errno>) -> (disk: Result<(), Errno>)
    ensures
        match found {
            Err(e) => disk == Err::<(), Errno>(e),
            Ok(kind) => if kind == FileType::BlockDevice {
                disk is Ok
            } else {
                disk == Err::<(), Errno>(Errno::ENOTBLK)
            },
        },
{
    match found {
        Err(e) => Err(e),
        Ok(FileType::BlockDevice) => Ok(()),
        Ok(_) => Err(Errno::ENOTBLK),
    }
}

/// `mount`, before its target is looked up: the type, copied in, or none at
/// all for a null pointer.
pub fn sys_mount(space: &AddressSpace, kind: u64) -> (name: Result<Option<Vec<u8>>, Errno>)
    requires
        space.wf(),
    ensures
        match name {
            Ok(None) => kind == 0,
            Ok(Some(text)) => kind != 0 && spec_user_path(*space, kind as int) == Ok::<
                Seq<u8>,
                Errno,
            >(text@),
            Err(e) => kind != 0 && spec_user_path(*space, kind as int) == Err::<Seq<u8>, Errno>(e),
        },
{
    if kind == 0 {
        return Ok(None);
    }
    let text = user_path(space, kind)?;
    Ok(Some(text))
}

/// `mount`'s flags, without the magic number old programs put in the top half.
pub open spec fn mount_flags(flags: u32) -> u32 {
    if flags & MS_MGC_MSK == MS_MGC_VAL {
        flags & !MS_MGC_MSK
    } else {
        flags
    }
}

/// What `mount` puts on its target once that has been found: `EINVAL` for a
/// flag that asks to change a mount, `EPERM` without privilege, `EINVAL`
/// without a type, and then what the type says.
pub open spec fn spec_mounting(
    name: Option<Seq<u8>>,
    source: u64,
    flags: u32,
    privileged: bool,
) -> Result<Filesystem, Errno> {
    let flags = mount_flags(flags);
    if flags & REFUSED_MOUNT_FLAGS != 0 {
        Err(Errno::EINVAL)
    } else if !privileged {
        Err(Errno::EPERM)
    } else {
        match name {
            None => Err(Errno::EINVAL),
            Some(name) => spec_filesystem_named(name, source, flags & MS_RDONLY != 0),
        }
    }
}

/// What `mount` puts on its target once that has been found.
pub fn mounting(name: &Option<Vec<u8>>, source: u64, flags: u32, credentials: &Credentials) -> (
    found: Result<Filesystem, Errno>)
    ensures
        found == spec_mounting(
            crate::exec::text_of(*name),
            source,
            flags,
            credentials@.privileged(),
        ),
{
    let flags: u32 = if flags & MS_MGC_MSK == MS_MGC_VAL {
        flags & !MS_MGC_MSK
    } else {
        flags
    };
    if flags & REFUSED_MOUNT_FLAGS != 0 {
        return Err(Errno::EINVAL);
    }
    require_privilege(credentials)?;
    match name {
        None => Err(Errno::EINVAL),
        Some(text) => filesystem_named(text.as_slice(), source, flags & MS_RDONLY != 0),
    }
}

/// Nothing is mounted without privilege, and nothing is mounted by a call that
/// asks to change a mount.
pub proof fn law_mounting_takes_privilege(
    name: Option<Seq<u8>>,
    source: u64,
    flags: u32,
    privileged: bool,
)
    requires
        spec_mounting(name, source, flags, privileged) is Ok,
    ensures
        privileged,
        mount_flags(flags) & REFUSED_MOUNT_FLAGS == 0,
{
}

/// `umount2`: whether a final symbolic link of its target is followed.
///
/// `EINVAL` for an unknown flag, and for one that marks a mount to go later;
/// then `EPERM` without privilege, before the target is looked up.
pub fn sys_umount2(flags: u32, credentials: &Credentials) -> (follow: Result<bool, Errno>)
    ensures
        follow == if flags & !(MNT_FORCE | MNT_DETACH | MNT_EXPIRE | UMOUNT_NOFOLLOW) != 0
            || flags & MNT_EXPIRE != 0 {
            Err::<bool, Errno>(Errno::EINVAL)
        } else if !credentials@.privileged() {
            Err(Errno::EPERM)
        } else {
            Ok(flags & UMOUNT_NOFOLLOW == 0)
        },
{
    if flags & !(MNT_FORCE | MNT_DETACH | MNT_EXPIRE | UMOUNT_NOFOLLOW) != 0 || flags & MNT_EXPIRE
        != 0 {
        return Err(Errno::EINVAL);
    }
    require_privilege(credentials)?;
    Ok(flags & UMOUNT_NOFOLLOW == 0)
}

// ---------------------------------------------------------------------------
// Extended attributes
// ---------------------------------------------------------------------------

/// What is done to an extended attribute.
#[derive(Clone, Copy, Debug, PartialEq, Eq, Structural)]
pub enum Xattr {
    /// Get one.
    Get,
    /// List them.
    List,
    /// Set or remove one.
    Change,
}

/// What a file with no extended attributes answers: an empty list is a length
/// of zero.
pub open spec fn spec_no_attributes(what: Xattr) -> Result<usize, Errno> {
    match what {
        Xattr::List => Ok(0),
        Xattr::Get => Err(Errno::ENODATA),
        Xattr::Change => Err(Errno::EOPNOTSUPP),
    }
}

/// What a file with no extended attributes answers.
fn no_attributes(what: Xattr) -> (result: Result<usize, Errno>)
    ensures
        result == spec_no_attributes(what),
{
    match what {
        Xattr::List => Ok(0),
        Xattr::Get => Err(Errno::ENODATA),
        Xattr::Change => Err(Errno::EOPNOTSUPP),
    }
}

/// The path forms: the path is resolved first.
pub fn xattr_at(found: Result<(), Errno>, what: Xattr) -> (result: Result<usize, Errno>)
    ensures
        result == match found {
            Err(e) => Err::<usize, Errno>(e),
            Ok(_) => spec_no_attributes(what),
        },
{
    match found {
        Err(e) => Err(e),
        Ok(_) => no_attributes(what),
    }
}

/// The descriptor forms: the descriptor is checked first.
pub fn xattr_of(table: &FdTable, open: &Vec<OpenFile>, fd: i32, what: Xattr) -> (result: Result<
    usize,
    Errno,
>)
    requires
        named(*table, open@.len()),
    ensures
        result == match spec_usable(*table, open@, fd as int) {
            Err(e) => Err::<usize, Errno>(e),
            Ok(_) => spec_no_attributes(what),
        },
{
    let _found = usable(table, open, fd)?;
    no_attributes(what)
}

// ---------------------------------------------------------------------------
// The calls
// ---------------------------------------------------------------------------

/// A 64-bit argument that starts at register `slot`: that register, and on a
/// 32-bit machine the pair from the next even one on, low half first.
pub open spec fn spec_wide(a: Seq<u64>, slot: int, arch: Arch) -> int {
    match arch {
        Arch::Arm => {
            let low = if slot % 2 == 0 {
                slot
            } else {
                slot + 1
            };
            spec_signed_64(
                spec_low_u32(a[low] as int) + spec_low_u32(a[low + 1] as int) * 0x1_0000_0000,
            )
        },
        _ => spec_signed_64(a[slot] as int),
    }
}

/// A 64-bit argument that starts at register `slot`.
fn wide(a: &[u64; 6], slot: usize, arch: Arch) -> (value: i64)
    requires
        slot <= 4,
    ensures
        value == spec_wide(a@, slot as int, arch),
{
    match arch {
        Arch::Arm => {
            let low: usize = if slot % 2 == 0 {
                slot
            } else {
                slot + 1
            };
            let bits: u64 = low_u32(a[low]) as u64 + low_u32(a[low + 1]) as u64 * 0x1_0000_0000;
            signed_64(bits)
        },
        _ => signed_64(a[slot]),
    }
}

/// A `long` argument: the machine's word, signed.
pub open spec fn spec_native_signed(value: u64, arch: Arch) -> int {
    match arch {
        Arch::Arm => spec_signed_32(spec_low_u32(value as int)),
        _ => spec_signed_64(value as int),
    }
}

/// A `long` argument: the machine's word, signed.
fn native_signed(value: u64, arch: Arch) -> (out: i64)
    ensures
        out == spec_native_signed(value, arch),
{
    match arch {
        Arch::Arm => signed_32(low_u32(value)) as i64,
        _ => signed_64(value),
    }
}

/// One of this module's calls, with its arguments.
#[allow(inconsistent_fields)]
#[derive(Clone, Copy, Debug, PartialEq, Eq)]
pub enum Request {
    Pipe { at: u64, flags: u32 },
    Sendfile { to: i32, from: i32, offset: u64, count: u64 },
    Splice { from: i32, from_at: u64, to: i32, to_at: u64, len: u64, flags: u32 },
    CopyFileRange { from: i32, from_at: u64, to: i32, to_at: u64, len: u64, flags: u32 },
    Statfs { path: u64, buf: u64 },
    Fstatfs { fd: i32, buf: u64 },
    Statfs64 { path: u64, size: u64, buf: u64 },
    Fstatfs64 { fd: i32, size: u64, buf: u64 },
    Sync,
    Syncfs { fd: i32 },
    Fsync { fd: i32, data_only: bool },
    Readahead { fd: i32, count: u64 },
    Truncate { path: u64, length: i64 },
    Fallocate { fd: i32, mode: u32, offset: i64, len: i64 },
    Chroot { path: u64 },
    Mount { source: u64, target: u64, kind: u64, flags: u32 },
    Umount { target: u64, flags: u32 },
    /// The root is fixed and has no parent to move under: `EINVAL`.
    Refused(Errno),
    XattrAt { path: u64, follow: bool, what: Xattr },
    XattrOf { fd: i32, what: Xattr },
}

/// What a call asks for, if it is one of this module's.
pub open spec fn spec_dispatch(call: Syscall, a: Seq<u64>, arch: Arch) -> Option<Request> {
    let fd = spec_int(a[0] as int) as i32;
    let second = spec_int(a[1] as int) as i32;
    let third = spec_int(a[2] as int) as i32;
    let flags = |i: int| spec_low_u32(a[i] as int) as u32;
    match call {
        Syscall::Pipe => Some(Request::Pipe { at: a[0], flags: 0 }),
        Syscall::Pipe2 => Some(Request::Pipe { at: a[0], flags: flags(1) }),
        Syscall::Sendfile => Some(
            Request::Sendfile { to: fd, from: second, offset: a[2], count: a[3] },
        ),
        Syscall::Sendfile64 => Some(
            Request::Sendfile { to: fd, from: second, offset: a[2], count: a[3] },
        ),
        Syscall::Splice => Some(
            Request::Splice {
                from: fd,
                from_at: a[1],
                to: third,
                to_at: a[3],
                len: a[4],
                flags: flags(5),
            },
        ),
        Syscall::CopyFileRange => Some(
            Request::CopyFileRange {
                from: fd,
                from_at: a[1],
                to: third,
                to_at: a[3],
                len: a[4],
                flags: flags(5),
            },
        ),
        Syscall::Statfs => Some(Request::Statfs { path: a[0], buf: a[1] }),
        Syscall::Fstatfs => Some(Request::Fstatfs { fd, buf: a[1] }),
        Syscall::Statfs64 => Some(Request::Statfs64 { path: a[0], size: a[1], buf: a[2] }),
        Syscall::Fstatfs64 => Some(Request::Fstatfs64 { fd, size: a[1], buf: a[2] }),
        Syscall::Sync => Some(Request::Sync),
        Syscall::Syncfs => Some(Request::Syncfs { fd }),
        Syscall::Fsync => Some(Request::Fsync { fd, data_only: false }),
        Syscall::Fdatasync => Some(Request::Fsync { fd, data_only: true }),
        Syscall::Readahead => Some(
            Request::Readahead { fd, count: spec_readahead_count(a, arch) },
        ),
        Syscall::Truncate => Some(
            Request::Truncate { path: a[0], length: spec_native_signed(a[1], arch) as i64 },
        ),
        Syscall::Truncate64 => Some(
            Request::Truncate { path: a[0], length: spec_wide(a, 1, arch) as i64 },
        ),
        Syscall::Fallocate => Some(
            Request::Fallocate {
                fd,
                mode: flags(1),
                offset: spec_wide(a, 2, arch) as i64,
                len: spec_wide(a, 3, arch) as i64,
            },
        ),
        Syscall::Chroot => Some(Request::Chroot { path: a[0] }),
        Syscall::Mount => Some(
            Request::Mount { source: a[0], target: a[1], kind: a[2], flags: flags(3) },
        ),
        Syscall::Umount2 => Some(Request::Umount { target: a[0], flags: flags(1) }),
        Syscall::PivotRoot => Some(Request::Refused(Errno::EINVAL)),
        Syscall::Getxattr => Some(
            Request::XattrAt { path: a[0], follow: true, what: Xattr::Get },
        ),
        Syscall::Listxattr => Some(
            Request::XattrAt { path: a[0], follow: true, what: Xattr::List },
        ),
        Syscall::Setxattr => Some(
            Request::XattrAt { path: a[0], follow: true, what: Xattr::Change },
        ),
        Syscall::Removexattr => Some(
            Request::XattrAt { path: a[0], follow: true, what: Xattr::Change },
        ),
        Syscall::Lgetxattr => Some(
            Request::XattrAt { path: a[0], follow: false, what: Xattr::Get },
        ),
        Syscall::Llistxattr => Some(
            Request::XattrAt { path: a[0], follow: false, what: Xattr::List },
        ),
        Syscall::Lsetxattr => Some(
            Request::XattrAt { path: a[0], follow: false, what: Xattr::Change },
        ),
        Syscall::Lremovexattr => Some(
            Request::XattrAt { path: a[0], follow: false, what: Xattr::Change },
        ),
        Syscall::Fgetxattr => Some(Request::XattrOf { fd, what: Xattr::Get }),
        Syscall::Flistxattr => Some(Request::XattrOf { fd, what: Xattr::List }),
        Syscall::Fsetxattr => Some(Request::XattrOf { fd, what: Xattr::Change }),
        Syscall::Fremovexattr => Some(Request::XattrOf { fd, what: Xattr::Change }),
        _ => None,
    }
}

/// What a call asks for, if it is one of this module's.
pub fn dispatch(call: Syscall, a: &[u64; 6], arch: Arch) -> (request: Option<Request>)
    ensures
        request == spec_dispatch(call, a@, arch),
{
    let fd: i32 = arg(a[0]);
    let second: i32 = arg(a[1]);
    let third: i32 = arg(a[2]);
    match call {
        Syscall::Pipe => Some(Request::Pipe { at: a[0], flags: 0 }),
        Syscall::Pipe2 => Some(Request::Pipe { at: a[0], flags: low_u32(a[1]) }),
        Syscall::Sendfile => Some(
            Request::Sendfile { to: fd, from: second, offset: a[2], count: a[3] },
        ),
        Syscall::Sendfile64 => Some(
            Request::Sendfile { to: fd, from: second, offset: a[2], count: a[3] },
        ),
        Syscall::Splice => Some(
            Request::Splice {
                from: fd,
                from_at: a[1],
                to: third,
                to_at: a[3],
                len: a[4],
                flags: low_u32(a[5]),
            },
        ),
        Syscall::CopyFileRange => Some(
            Request::CopyFileRange {
                from: fd,
                from_at: a[1],
                to: third,
                to_at: a[3],
                len: a[4],
                flags: low_u32(a[5]),
            },
        ),
        Syscall::Statfs => Some(Request::Statfs { path: a[0], buf: a[1] }),
        Syscall::Fstatfs => Some(Request::Fstatfs { fd, buf: a[1] }),
        Syscall::Statfs64 => Some(Request::Statfs64 { path: a[0], size: a[1], buf: a[2] }),
        Syscall::Fstatfs64 => Some(Request::Fstatfs64 { fd, size: a[1], buf: a[2] }),
        Syscall::Sync => Some(Request::Sync),
        Syscall::Syncfs => Some(Request::Syncfs { fd }),
        Syscall::Fsync => Some(Request::Fsync { fd, data_only: false }),
        Syscall::Fdatasync => Some(Request::Fsync { fd, data_only: true }),
        Syscall::Readahead => Some(Request::Readahead { fd, count: readahead_count(a, arch) }),
        Syscall::Truncate => Some(
            Request::Truncate { path: a[0], length: native_signed(a[1], arch) },
        ),
        Syscall::Truncate64 => Some(
            Request::Truncate { path: a[0], length: wide(a, 1, arch) },
        ),
        Syscall::Fallocate => Some(
            Request::Fallocate {
                fd,
                mode: low_u32(a[1]),
                offset: wide(a, 2, arch),
                len: wide(a, 3, arch),
            },
        ),
        Syscall::Chroot => Some(Request::Chroot { path: a[0] }),
        Syscall::Mount => Some(
            Request::Mount { source: a[0], target: a[1], kind: a[2], flags: low_u32(a[3]) },
        ),
        Syscall::Umount2 => Some(Request::Umount { target: a[0], flags: low_u32(a[1]) }),
        Syscall::PivotRoot => Some(Request::Refused(Errno::EINVAL)),
        Syscall::Getxattr => Some(
            Request::XattrAt { path: a[0], follow: true, what: Xattr::Get },
        ),
        Syscall::Listxattr => Some(
            Request::XattrAt { path: a[0], follow: true, what: Xattr::List },
        ),
        Syscall::Setxattr => Some(
            Request::XattrAt { path: a[0], follow: true, what: Xattr::Change },
        ),
        Syscall::Removexattr => Some(
            Request::XattrAt { path: a[0], follow: true, what: Xattr::Change },
        ),
        Syscall::Lgetxattr => Some(
            Request::XattrAt { path: a[0], follow: false, what: Xattr::Get },
        ),
        Syscall::Llistxattr => Some(
            Request::XattrAt { path: a[0], follow: false, what: Xattr::List },
        ),
        Syscall::Lsetxattr => Some(
            Request::XattrAt { path: a[0], follow: false, what: Xattr::Change },
        ),
        Syscall::Lremovexattr => Some(
            Request::XattrAt { path: a[0], follow: false, what: Xattr::Change },
        ),
        Syscall::Fgetxattr => Some(Request::XattrOf { fd, what: Xattr::Get }),
        Syscall::Flistxattr => Some(Request::XattrOf { fd, what: Xattr::List }),
        Syscall::Fsetxattr => Some(Request::XattrOf { fd, what: Xattr::Change }),
        Syscall::Fremovexattr => Some(Request::XattrOf { fd, what: Xattr::Change }),
        _ => None,
    }
}

// ---------------------------------------------------------------------------
// What calls on filesystems are for
// ---------------------------------------------------------------------------

/// `fallocate` makes a regular file that is open for writing reach the end of
/// the range asked for, or leaves its length alone where that was asked; the
/// range must be one, and nothing else is allocated.
pub proof fn law_a_file_is_made_to_reach_the_end(
    table: FdTable,
    open: Seq<OpenFile>,
    fd: int,
    mode: u32,
    offset: int,
    len: int,
)
    ensures
        ({
            let answer = spec_fallocate(table, open, fd, mode, offset, len);
            let file = open[table@[fd].file as int];
            let opened = table@.dom().contains(fd) && !file.path_only;
            &&& answer matches Ok(end) ==> {
                &&& opened && file.writable && file.kind == FileType::Regular
                &&& offset >= 0 && len > 0 && offset + len <= 0x7FFF_FFFF_FFFF_FFFF
                &&& mode & !1 == 0
                &&& end is None <==> mode & 1 != 0
                &&& end matches Some(e) ==> e == offset + len
            }
            &&& opened && file.writable && file.kind == FileType::Regular && offset >= 0 && len > 0
                && offset + len <= 0x7FFF_FFFF_FFFF_FFFF && mode <= 1 ==> answer is Ok
            &&& !opened ==> answer == Err::<Option<u64>, Errno>(Errno::EBADF)
            &&& opened && (offset < 0 || len <= 0) ==> answer == Err::<Option<u64>, Errno>(
                Errno::EINVAL,
            )
        }),
{
    assert(mode <= 1 ==> mode & !1 == 0) by (bit_vector);
}

/// A filesystem's record is where it was asked for, byte for byte, or nothing
/// is written and the call fails.
pub proof fn law_a_record_is_written_whole(m: Memory, buf: u64, record: Result<Seq<u8>, Errno>)
    ensures
        ({
            let (after, result) = spec_write_statfs(m, buf, record);
            &&& record matches Err(e) ==> after == m && result == Err::<usize, Errno>(e)
            &&& record matches Ok(bytes) ==> {
                &&& m.can_write(buf as int, bytes.len() as int) ==> result == Ok::<usize, Errno>(0)
                    && after == m.store(buf as int, bytes)
                &&& !m.can_write(buf as int, bytes.len() as int) ==> result == Err::<usize, Errno>(
                    Errno::EFAULT,
                ) && after == m
            }
        }),
        statfs64_fits(84) && statfs64_fits(88),
        forall|size: u64| #[trigger] statfs64_fits(size) ==> size == 84 || size == 88,
{
}

/// `readahead` is for a regular file open for reading.
pub proof fn law_only_a_readable_file_is_read_ahead(
    table: FdTable,
    open: Seq<OpenFile>,
    fd: int,
    count: u64,
)
    ensures
        ({
            let answer = spec_readahead(table, open, fd, count);
            let file = open[table@[fd].file as int];
            &&& answer is Ok <==> table@.dom().contains(fd) && file.readable && file.kind
                == FileType::Regular && count <= 0x7FFF_FFFF_FFFF_FFFF
            &&& answer matches Ok(n) ==> n == 0
            &&& answer == Err::<usize, Errno>(Errno::EBADF) <==> !table@.dom().contains(fd)
                || !file.readable
        }),
{
}

/// What is mounted is what was named: memory filesystems never read-only, and a
/// disk's only with a disk. The old mark in the flags' upper half is no flag.
pub proof fn law_what_is_mounted_is_what_was_named(
    name: Option<Seq<u8>>,
    source: u64,
    flags: u32,
    privileged: bool,
)
    ensures
        ({
            let answer = spec_mounting(name, source, flags, privileged);
            let read_only = flags & 1 != 0;
            let tmpfs = seq![0x74u8, 0x6D, 0x70, 0x66, 0x73];
            let proc_name = seq![0x70u8, 0x72, 0x6F, 0x63];
            let devtmpfs = seq![0x64u8, 0x65, 0x76, 0x74, 0x6D, 0x70, 0x66, 0x73];
            let cgroup2 = seq![0x63u8, 0x67, 0x72, 0x6F, 0x75, 0x70, 0x32];
            let btrfs = seq![0x62u8, 0x74, 0x72, 0x66, 0x73];
            &&& answer == Ok::<Filesystem, Errno>(Filesystem::Tmpfs) ==> name == Some(tmpfs)
                && !read_only
            &&& answer == Ok::<Filesystem, Errno>(Filesystem::Proc) ==> name == Some(proc_name)
                && !read_only
            &&& answer == Ok::<Filesystem, Errno>(Filesystem::Devtmpfs) ==> name == Some(devtmpfs)
                && !read_only
            &&& answer == Ok::<Filesystem, Errno>(Filesystem::Cgroup2) ==> name == Some(cgroup2)
            &&& answer matches Ok(Filesystem::Btrfs { source: disk, read_only: kept }) ==> name
                == Some(btrfs) && disk == source && source != 0 && (kept <==> read_only)
            &&& privileged && flags == 0 && name == Some(tmpfs) ==> answer == Ok::<
                Filesystem,
                Errno,
            >(Filesystem::Tmpfs)
            &&& privileged && flags == 0 && name == Some(proc_name) ==> answer == Ok::<
                Filesystem,
                Errno,
            >(Filesystem::Proc)
            &&& privileged && flags == 0 && name == Some(devtmpfs) ==> answer == Ok::<
                Filesystem,
                Errno,
            >(Filesystem::Devtmpfs)
            &&& privileged && flags == 0 && name == Some(cgroup2) ==> answer == Ok::<
                Filesystem,
                Errno,
            >(Filesystem::Cgroup2)
            &&& privileged && flags <= 1 && name == Some(btrfs) && source != 0 ==> answer == Ok::<
                Filesystem,
                Errno,
            >(Filesystem::Btrfs { source, read_only: flags == 1 })
            &&& !privileged ==> answer is Err
            &&& name is None ==> answer is Err
        }),
{
    assert(flags & 0xFFFF_0000 == 0xC0ED_0000 ==> (flags & !0xFFFF_0000u32) & 1 == flags & 1)
        by (bit_vector);
    assert(flags <= 1 ==> flags & 0xFFFF_0000 != 0xC0ED_0000 && flags & 0x1E_3020 == 0 && (flags
        & 1 != 0 <==> flags == 1)) by (bit_vector);
    let tmpfs = seq![0x74u8, 0x6D, 0x70, 0x66, 0x73];
    let btrfs = seq![0x62u8, 0x74, 0x72, 0x66, 0x73];
    assert(tmpfs[0] != btrfs[0]);
    assert(name_tmpfs().len() == 5 && name_proc().len() == 4 && name_devtmpfs().len() == 8
        && name_cgroup2().len() == 7 && name_btrfs().len() == 5);
}

/// No file has extended attributes: a list of them is empty, one is not there
/// to get, and none can be changed.
pub proof fn law_no_file_has_extended_attributes(what: Xattr)
    ensures
        spec_no_attributes(what) == Ok::<usize, Errno>(0) <==> what == Xattr::List,
        spec_no_attributes(what) == Err::<usize, Errno>(Errno::ENODATA) <==> what == Xattr::Get,
        spec_no_attributes(what) == Err::<usize, Errno>(Errno::EOPNOTSUPP) <==> what
            == Xattr::Change,
{
}

/// A file is truncated only where it may be: a regular one where it may be
/// written.
pub proof fn law_a_length_is_set_only_where_it_may_be(
    found: Result<FileType, Errno>,
    may_write: Result<(), Errno>,
)
    ensures
        spec_may_truncate(found, may_write) is Ok <==> found is Ok && (found->Ok_0
            != FileType::Regular || may_write is Ok),
        found matches Err(e) ==> spec_may_truncate(found, may_write) == Err::<(), Errno>(e),
        found is Ok && spec_may_truncate(found, may_write) is Err ==> spec_may_truncate(
            found,
            may_write,
        ) == may_write,
{
}

/// A 64-bit argument is its register; on a 32-bit machine it is an aligned pair
/// of them, the low half first.
pub proof fn law_a_wide_argument_is_whole(a: Seq<u64>, slot: int, arch: Arch)
    requires
        a.len() == 6,
        0 <= slot <= 3,
    ensures
        ({
            let v = spec_wide(a, slot, arch);
            let pair: int = if slot % 2 == 0 {
                slot
            } else {
                slot + 1
            };
            &&& -0x8000_0000_0000_0000 <= v <= 0x7FFF_FFFF_FFFF_FFFF
            &&& arch != Arch::Arm ==> (a[slot] - v) % 0x1_0000_0000_0000_0000 == 0
            &&& arch == Arch::Arm && a[pair] <= 0xFFFF_FFFF && a[pair + 1] <= 0xFFFF_FFFF ==> (
            a[pair] + 0x1_0000_0000 * a[pair + 1] - v) % 0x1_0000_0000_0000_0000 == 0
        }),
{
}

/// Whether a 32-bit argument is the low half of its register.
pub open spec fn low_half(v: int, register: u64) -> bool {
    (register - v) % 0x1_0000_0000 == 0
}

/// A call on a file is asked with its own registers, each argument from its
/// own.
pub proof fn law_a_call_on_files_takes_its_own_registers(call: Syscall, a: Seq<u64>, arch: Arch)
    requires
        a.len() == 6,
    ensures
        ({
            let asked = spec_dispatch(call, a, arch);
            &&& asked matches Some(Request::Pipe { at, flags }) ==> at == a[0] && (call
                == Syscall::Pipe && flags == 0 || call == Syscall::Pipe2 && low_half(
                flags as int,
                a[1],
            ))
            &&& asked matches Some(Request::Sendfile { to, from, offset, count }) ==> low_half(
                to as int,
                a[0],
            ) && low_half(from as int, a[1]) && offset == a[2] && count == a[3]
            &&& asked matches Some(Request::Splice { from, from_at, to, to_at, len, flags })
                ==> call == Syscall::Splice && low_half(from as int, a[0]) && from_at == a[1]
                && low_half(to as int, a[2]) && to_at == a[3] && len == a[4] && low_half(
                flags as int,
                a[5],
            )
            &&& asked matches Some(Request::CopyFileRange { from, from_at, to, to_at, len, flags })
                ==> call == Syscall::CopyFileRange && low_half(from as int, a[0]) && from_at
                == a[1] && low_half(to as int, a[2]) && to_at == a[3] && len == a[4] && low_half(
                flags as int,
                a[5],
            )
            &&& asked matches Some(Request::Statfs { path, buf }) ==> call == Syscall::Statfs
                && path == a[0] && buf == a[1]
            &&& asked matches Some(Request::Fstatfs { fd, buf }) ==> call == Syscall::Fstatfs
                && low_half(fd as int, a[0]) && buf == a[1]
            &&& asked matches Some(Request::Statfs64 { path, size, buf }) ==> call
                == Syscall::Statfs64 && path == a[0] && size == a[1] && buf == a[2]
            &&& asked matches Some(Request::Fstatfs64 { fd, size, buf }) ==> call
                == Syscall::Fstatfs64 && low_half(fd as int, a[0]) && size == a[1] && buf == a[2]
            &&& asked matches Some(Request::Sync) ==> call == Syscall::Sync
            &&& asked matches Some(Request::Syncfs { fd }) ==> call == Syscall::Syncfs && low_half(
                fd as int,
                a[0],
            )
            &&& asked matches Some(Request::Fsync { fd, data_only }) ==> low_half(fd as int, a[0])
                && (data_only <==> call == Syscall::Fdatasync) && (!data_only <==> call
                == Syscall::Fsync)
            &&& asked matches Some(Request::Readahead { fd, count }) ==> call
                == Syscall::Readahead && low_half(fd as int, a[0]) && (arch != Arch::Arm ==> count
                == a[2]) && (arch == Arch::Arm ==> low_half(count as int, a[4]) && count
                <= 0xFFFF_FFFF)
            &&& asked matches Some(Request::Truncate { path, length }) ==> path == a[0] && (call
                == Syscall::Truncate || call == Syscall::Truncate64) && (arch != Arch::Arm ==> (
            a[1] - length) % 0x1_0000_0000_0000_0000 == 0)
            &&& asked matches Some(Request::Truncate { path, length }) ==> call
                == Syscall::Truncate64 ==> length == spec_wide(a, 1, arch)
            &&& asked matches Some(Request::Fallocate { fd, mode, offset, len }) ==> call
                == Syscall::Fallocate && low_half(fd as int, a[0]) && low_half(mode as int, a[1])
                && offset == spec_wide(a, 2, arch) && len == spec_wide(a, 3, arch)
            &&& asked matches Some(Request::Chroot { path }) ==> call == Syscall::Chroot && path
                == a[0]
            &&& asked matches Some(Request::Mount { source, target, kind, flags }) ==> call
                == Syscall::Mount && source == a[0] && target == a[1] && kind == a[2] && low_half(
                flags as int,
                a[3],
            )
            &&& asked matches Some(Request::Umount { target, flags }) ==> call == Syscall::Umount2
                && target == a[0] && low_half(flags as int, a[1])
        }),
{
}

/// Every call about a filesystem is answered: none of them is nobody's.
pub proof fn law_every_call_on_files_is_asked(call: Syscall, a: Seq<u64>, arch: Arch)
    ensures
        ({
            let asked = spec_dispatch(call, a, arch);
            &&& call == Syscall::Pipe || call == Syscall::Pipe2 ==> asked is Some && asked->0
                is Pipe
            &&& call == Syscall::Sendfile || call == Syscall::Sendfile64 ==> asked is Some
                && asked->0 is Sendfile
            &&& call == Syscall::Splice ==> asked is Some && asked->0 is Splice
            &&& call == Syscall::CopyFileRange ==> asked is Some && asked->0 is CopyFileRange
            &&& call == Syscall::Statfs ==> asked is Some && asked->0 is Statfs
            &&& call == Syscall::Fstatfs ==> asked is Some && asked->0 is Fstatfs
            &&& call == Syscall::Statfs64 ==> asked is Some && asked->0 is Statfs64
            &&& call == Syscall::Fstatfs64 ==> asked is Some && asked->0 is Fstatfs64
            &&& call == Syscall::Sync ==> asked is Some && asked->0 is Sync
            &&& call == Syscall::Syncfs ==> asked is Some && asked->0 is Syncfs
            &&& call == Syscall::Fsync || call == Syscall::Fdatasync ==> asked is Some && asked->0
                is Fsync
            &&& call == Syscall::Readahead ==> asked is Some && asked->0 is Readahead
            &&& call == Syscall::Truncate || call == Syscall::Truncate64 ==> asked is Some
                && asked->0 is Truncate
            &&& call == Syscall::Fallocate ==> asked is Some && asked->0 is Fallocate
            &&& call == Syscall::Chroot ==> asked is Some && asked->0 is Chroot
            &&& call == Syscall::Mount ==> asked is Some && asked->0 is Mount
            &&& call == Syscall::Umount2 ==> asked is Some && asked->0 is Umount
            &&& call == Syscall::PivotRoot ==> asked == Some(Request::Refused(Errno::EINVAL))
        }),
{
}

/// A call on extended attributes is asked of the path or descriptor in its
/// first register, through a final link or not as its name says, and gets, lists
/// or changes as its name says.
#[verifier::spinoff_prover]
#[verifier::rlimit(60)]
pub proof fn law_an_attribute_call_does_what_it_is_called(
    call: Syscall,
    a: Seq<u64>,
    arch: Arch,
)
    ensures
        ({
            let asked = spec_dispatch(call, a, arch);
            let gets = call == Syscall::Getxattr || call == Syscall::Lgetxattr || call
                == Syscall::Fgetxattr;
            let lists = call == Syscall::Listxattr || call == Syscall::Llistxattr || call
                == Syscall::Flistxattr;
            let changes = call == Syscall::Setxattr || call == Syscall::Removexattr || call
                == Syscall::Lsetxattr || call == Syscall::Lremovexattr || call
                == Syscall::Fsetxattr || call == Syscall::Fremovexattr;
            let open = call == Syscall::Fgetxattr || call == Syscall::Flistxattr || call
                == Syscall::Fsetxattr || call == Syscall::Fremovexattr;
            let follows = call == Syscall::Getxattr || call == Syscall::Listxattr || call
                == Syscall::Setxattr || call == Syscall::Removexattr;
            &&& gets || lists || changes <==> asked is Some && (asked->0 is XattrAt || asked->0
                is XattrOf)
            &&& asked matches Some(Request::XattrAt { path, follow, what }) ==> path == a[0] && (
            follow <==> follows) && !open && (what == Xattr::Get <==> gets) && (what == Xattr::List
                <==> lists) && (what == Xattr::Change <==> changes)
            &&& asked matches Some(Request::XattrOf { fd, what }) ==> low_half(fd as int, a[0])
                && open && (what == Xattr::Get <==> gets) && (what == Xattr::List <==> lists) && (
            what == Xattr::Change <==> changes)
        }),
{
}

/// `syncfs` is of the filesystem its descriptor's file is on.
pub proof fn law_a_sync_is_of_the_files_filesystem(
    table: FdTable,
    open: Vec<OpenFile>,
    fd: i32,
    written: Result<(), Errno>,
    target: Result<u64, Errno>,
    result: Result<usize, Errno>,
)
    requires
        call_ensures(syncfs_target, (&table, &open, fd), target),
        call_ensures(sys_syncfs, (&table, &open, fd, written), result),
    ensures
        table@.dom().contains(fd as int) ==> target == Ok::<u64, Errno>(
            open@[table@[fd as int].file as int].filesystem,
        ),
        !table@.dom().contains(fd as int) ==> target == Err::<u64, Errno>(Errno::EBADF) && result
            == Err::<usize, Errno>(Errno::EBADF),
        table@.dom().contains(fd as int) ==> (result is Ok <==> written is Ok),
        table@.dom().contains(fd as int) ==> (written matches Err(e) ==> result == Err::<
            usize,
            Errno,
        >(e)),
{
}

/// The root is changed only to a directory the caller may search, and only by
/// the privileged.
pub proof fn law_only_the_privileged_change_the_root(
    found: Result<FileType, Errno>,
    may_search: Result<(), Errno>,
    credentials: Credentials,
    result: Result<usize, Errno>,
)
    requires
        call_ensures(sys_chroot, (found, may_search, &credentials), result),
    ensures
        result is Ok <==> found == Ok::<FileType, Errno>(FileType::Directory) && may_search is Ok
            && credentials@.user.effective == 0,
        result matches Ok(n) ==> n == 0,
        found matches Err(e) ==> result == Err::<usize, Errno>(e),
        found matches Ok(kind) ==> kind != FileType::Directory ==> result == Err::<usize, Errno>(
            Errno::ENOTDIR,
        ),
{
}

/// Something is taken out of the tree only by the privileged, with flags there
/// are and none that puts it off; a final link is followed unless that is not
/// asked.
pub proof fn law_only_the_privileged_unmount(
    flags: u32,
    credentials: Credentials,
    follow: Result<bool, Errno>,
)
    requires
        call_ensures(sys_umount2, (flags, &credentials), follow),
    ensures
        follow is Ok <==> (flags <= 3 || 8 <= flags <= 11) && credentials@.user.effective == 0,
        follow matches Ok(yes) ==> (yes <==> flags <= 3),
        !(flags <= 3 || 8 <= flags <= 11) ==> follow == Err::<bool, Errno>(Errno::EINVAL),
{
    assert({
        &&& flags & !(1u32 | 2u32 | 4u32 | 8u32) == 0 && flags & 4 == 0 <==> flags <= 3 || (8
            <= flags && flags <= 11)
        &&& flags <= 3 ==> flags & 8 == 0
        &&& 8 <= flags && flags <= 11 ==> flags & 8 != 0
    }) by (bit_vector);
}

/// Only a disk can be mounted from, and only a length that is one be set.
pub proof fn law_a_source_is_a_disk_and_a_length_a_length(
    found: Result<FileType, Errno>,
    disk: Result<(), Errno>,
    length: i64,
    len: Result<u64, Errno>,
)
    requires
        call_ensures(source_disk, (found,), disk),
        call_ensures(sys_truncate, (length,), len),
    ensures
        disk is Ok <==> found == Ok::<FileType, Errno>(FileType::BlockDevice),
        found matches Err(e) ==> disk == Err::<(), Errno>(e),
        found is Ok && disk is Err ==> disk == Err::<(), Errno>(Errno::ENOTBLK),
        len is Ok <==> length >= 0,
        len matches Ok(n) ==> n == length,
        len matches Err(e) ==> e == Errno::EINVAL,
{
}

/// A mount with no kind of filesystem named is none, and neither is one that
/// would change a mount there is: the privileged are told so, and the others
/// that they may not.
pub proof fn law_a_mount_names_its_filesystem(source: u64, flags: u32, privileged: bool)
    requires
        mount_flags(flags) & REFUSED_MOUNT_FLAGS == 0,
    ensures
        privileged ==> spec_mounting(None, source, flags, true) == Err::<Filesystem, Errno>(
            Errno::EINVAL,
        ),
        spec_mounting(None, source, flags, false) == Err::<Filesystem, Errno>(Errno::EPERM),
{
}

} // verus!
