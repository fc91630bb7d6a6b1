//! Calls on files and file systems as a whole.

use syscall::abi::Arch;
use syscall::credentials::{Credentials, Ids};
use syscall::errno::Errno;
use syscall::fd::{standard_streams, FdTable, FileType, OpenFile};
use syscall::fsctl::{
    dispatch, filesystem_named, may_truncate, mounting, readahead_count, source_disk,
    statfs64_size, sys_chroot, sys_fallocate, sys_fstatfs, sys_fstatfs64, sys_fsync, sys_mount,
    sys_readahead, sys_statfs, sys_statfs64, sys_sync, sys_syncfs, sys_truncate, sys_umount2, syncfs_target, truncated,
    xattr_at, xattr_of, Filesystem, Request, Xattr, FALLOC_FL_KEEP_SIZE, MNT_DETACH, MNT_EXPIRE,
    MNT_FORCE, MS_MGC_VAL, MS_RDONLY, UMOUNT_NOFOLLOW,
};
use syscall::file::Backend;
use syscall::memfile::MemoryFile;
use syscall::nr::Syscall;
use syscall::uaccess::{AddressSpace, Segment};

const PAGE: u64 = 0x10_0000;
const X86: Arch = Arch::X86_64;

fn program() -> AddressSpace {
    AddressSpace {
        id: 1,
        user_end: 0x8000_0000,
        segments: vec![Segment {
            start: PAGE,
            bytes: vec![0; 4096],
            writable: true,
            shared: None,
        }],
    }
}

fn described(kind: FileType, readable: bool, writable: bool) -> OpenFile {
    OpenFile {
        kind,
        path_only: false,
        readable,
        writable,
        append: false,
        nonblock: false,
        filesystem: 1,
        ino: 42,
        pollable: false,
        epoll_set: false,
        console: false,
        mappable: kind == FileType::Regular,
        seals: 0,
    }
}

struct World {
    table: FdTable,
    open: Vec<OpenFile>,
    files: Vec<MemoryFile>,
}

/// Descriptors: 0 the console, 3 a file to read and write, 4 one to read, 5
/// one to write, 6 a directory, 7 one with nothing but its place.
fn world() -> World {
    let mut table = standard_streams(0);
    for (file, fd) in [(1, 3), (2, 4), (3, 5), (4, 6), (5, 7)] {
        assert_eq!(table.insert(file, false), Ok(fd));
    }
    let place = OpenFile { path_only: true, ..described(FileType::Regular, false, false) };
    World {
        table,
        open: vec![
            described(FileType::CharDevice, true, true),
            described(FileType::Regular, true, true),
            described(FileType::Regular, true, false),
            described(FileType::Regular, false, true),
            described(FileType::Directory, true, false),
            place,
        ],
        files: vec![
            MemoryFile::new_stream(Vec::new(), 64),
            MemoryFile::regular(b"contents".to_vec(), true, true, 64),
            MemoryFile::regular(b"contents".to_vec(), true, false, 64),
            MemoryFile::regular(b"contents".to_vec(), false, true, 64),
            MemoryFile::directory(),
            MemoryFile::regular(Vec::new(), false, false, 64),
        ],
    }
}

#[test]
fn check_readahead_accepts_only_a_readable_file() {
    let w = world();
    assert_eq!(sys_readahead(&w.table, &w.open, 3, 100), Ok(0));
    assert_eq!(sys_readahead(&w.table, &w.open, 4, 100), Ok(0));
    assert_eq!(sys_readahead(&w.table, &w.open, 5, 100), Err(Errno::EBADF));
    assert_eq!(sys_readahead(&w.table, &w.open, 99, 100), Err(Errno::EBADF));
    assert_eq!(sys_readahead(&w.table, &w.open, 6, 100), Err(Errno::EINVAL));
    assert_eq!(sys_readahead(&w.table, &w.open, 0, 100), Err(Errno::EINVAL));
    assert_eq!(readahead_count(&[3, 1, 2, 4, 5, 6], X86), 2);
}

#[test]
fn a_filesystem_is_described() {
    let mut space = program();
    let w = world();
    let record = vec![7_u8; 120];
    assert_eq!(sys_statfs(&mut space, Ok(record.clone()), PAGE), Ok(0));
    assert_eq!(space.copy_from_user(PAGE, 121).unwrap()[119..], [7, 0]);
    assert_eq!(
        sys_statfs(&mut space, Err(Errno::ENOENT), PAGE),
        Err(Errno::ENOENT)
    );
    assert_eq!(sys_statfs(&mut space, Ok(record.clone()), 64), Err(Errno::EFAULT));
    assert_eq!(
        sys_fstatfs(&mut space, &w.table, &w.open, 99, Ok(record.clone()), PAGE),
        Err(Errno::EBADF)
    );
    assert_eq!(
        sys_fstatfs(&mut space, &w.table, &w.open, 3, Ok(record.clone()), PAGE),
        Ok(0)
    );
    assert_eq!(statfs64_size(84), Ok(()));
    assert_eq!(statfs64_size(88), Ok(()));
    assert_eq!(statfs64_size(80), Err(Errno::EINVAL));
    assert_eq!(
        sys_fstatfs64(&mut space, &w.table, &w.open, 3, 80, Ok(record), PAGE),
        Err(Errno::EINVAL)
    );
}

#[test]
fn what_was_written_is_made_to_last() {
    let mut w = world();
    let mut mounted = vec![
        MemoryFile::regular(vec![1], true, true, 64),
        MemoryFile::new_stream(Vec::new(), 64),
        MemoryFile::regular(vec![2], true, true, 64),
    ];
    for one in &mut mounted {
        assert_eq!(one.write(None, &[7]), Ok(1));
    }
    // The second has no storage, and the third is written out all the same.
    assert_eq!(sys_sync(&mut mounted), Ok(0));
    assert_eq!(mounted.len(), 3);
    assert!(!mounted[0].unsynced && mounted[1].unsynced && !mounted[2].unsynced);
    assert_eq!(sys_sync(&mut Vec::<MemoryFile>::new()), Ok(0));
    w.open[1].filesystem = 9;
    assert_eq!(syncfs_target(&w.table, &w.open, 3), Ok(9));
    assert_eq!(syncfs_target(&w.table, &w.open, 99), Err(Errno::EBADF));
    assert_eq!(sys_syncfs(&w.table, &w.open, 3, Ok(())), Ok(0));
    assert_eq!(sys_syncfs(&w.table, &w.open, 3, Err(Errno::EIO)), Err(Errno::EIO));
    assert_eq!(sys_syncfs(&w.table, &w.open, 99, Ok(())), Err(Errno::EBADF));
    assert_eq!(sys_fsync(&w.table, &w.open, &mut w.files, 3, false), Ok(0));
    assert_eq!(
        sys_fsync(&w.table, &w.open, &mut w.files, 7, false),
        Err(Errno::EBADF)
    );
}

#[test]
fn a_file_is_cut_by_name() {
    assert_eq!(sys_truncate(5), Ok(5));
    assert_eq!(sys_truncate(-1), Err(Errno::EINVAL));
    let denied = Err(Errno::EACCES);
    assert_eq!(may_truncate(Ok(FileType::Regular), Ok(())), Ok(()));
    assert_eq!(may_truncate(Ok(FileType::Regular), denied), denied);
    // Only a regular file's permission is asked for.
    assert_eq!(may_truncate(Ok(FileType::CharDevice), denied), Ok(()));
    assert_eq!(may_truncate(Err(Errno::ENOENT), denied), Err(Errno::ENOENT));

    let mut file = MemoryFile::regular(vec![1, 2, 3], true, true, 8);
    assert_eq!(
        truncated(Ok(FileType::Regular), Err(Errno::EACCES), &mut file, 1),
        Err(Errno::EACCES)
    );
    assert_eq!(truncated(Err(Errno::ENOENT), Ok(()), &mut file, 1), Err(Errno::ENOENT));
    assert_eq!(file.contents, vec![1, 2, 3]);
    assert_eq!(truncated(Ok(FileType::Regular), Ok(()), &mut file, 9), Err(Errno::EFBIG));
    assert_eq!(truncated(Ok(FileType::Regular), Ok(()), &mut file, 1), Ok(0));
    assert_eq!(file.contents, vec![1]);
    let mut directory = MemoryFile::directory();
    assert_eq!(
        truncated(Ok(FileType::Directory), Err(Errno::EACCES), &mut directory, 1),
        Err(Errno::EINVAL)
    );
}

#[test]
fn room_is_made_in_a_file() {
    let mut w = world();
    let ask = |w: &mut World, fd: i32, mode: u32, offset: i64, len: i64| {
        sys_fallocate(&w.table, &w.open, &mut w.files, fd, mode, offset, len)
    };
    assert_eq!(ask(&mut w, 3, 0, 0, 20), Ok(0));
    assert_eq!(w.files[1].contents.len(), 20);
    assert_eq!(w.files[1].contents[..8], *b"contents");
    // It never cuts, and can leave the length alone.
    assert_eq!(ask(&mut w, 3, 0, 0, 5), Ok(0));
    assert_eq!(w.files[1].contents.len(), 20);
    assert_eq!(ask(&mut w, 3, FALLOC_FL_KEEP_SIZE, 0, 40), Ok(0));
    assert_eq!(w.files[1].contents.len(), 20);
    assert_eq!(ask(&mut w, 3, 0, -1, 5), Err(Errno::EINVAL));
    assert_eq!(ask(&mut w, 3, 0, 0, 0), Err(Errno::EINVAL));
    assert_eq!(ask(&mut w, 3, 2, 0, 5), Err(Errno::EOPNOTSUPP));
    assert_eq!(ask(&mut w, 4, 0, 0, 5), Err(Errno::EBADF));
    assert_eq!(ask(&mut w, 99, 0, 0, 5), Err(Errno::EBADF));
}

fn user() -> Credentials {
    let ids = Ids { real: 1000, effective: 1000, saved: 1000, filesystem: 1000 };
    Credentials { user: ids, group: ids, groups: Vec::new() }
}

#[test]
fn mounting_and_changing_the_root_take_privilege() {
    let root = Credentials::root();
    assert_eq!(sys_chroot(Ok(FileType::Directory), Ok(()), &root), Ok(0));
    assert_eq!(
        sys_chroot(Ok(FileType::Directory), Ok(()), &user()),
        Err(Errno::EPERM)
    );
    assert_eq!(
        sys_chroot(Ok(FileType::Regular), Ok(()), &root),
        Err(Errno::ENOTDIR)
    );
    assert_eq!(
        sys_chroot(Ok(FileType::Directory), Err(Errno::EACCES), &root),
        Err(Errno::EACCES)
    );
    let tmpfs = Some(b"tmpfs".to_vec());
    assert_eq!(mounting(&tmpfs, 0, 0, &root), Ok(Filesystem::Tmpfs));
    assert_eq!(mounting(&tmpfs, 0, 0, &user()), Err(Errno::EPERM));
    assert_eq!(mounting(&tmpfs, 0, MS_MGC_VAL, &root), Ok(Filesystem::Tmpfs));
    assert_eq!(sys_umount2(0, &root), Ok(true));
    assert_eq!(sys_umount2(UMOUNT_NOFOLLOW, &root), Ok(false));
    assert_eq!(sys_umount2(0, &user()), Err(Errno::EPERM));
    assert_eq!(sys_umount2(0x80, &root), Err(Errno::EINVAL));
    assert!(sys_umount2(MNT_FORCE | MNT_DETACH, &root).is_ok());
    assert_eq!(sys_umount2(MNT_EXPIRE | MNT_DETACH, &root), Err(Errno::EINVAL));
}

#[test]
fn a_filesystem_is_found_by_its_name() {
    for (name, found) in [
        (&b"tmpfs"[..], Filesystem::Tmpfs),
        (&b"proc"[..], Filesystem::Proc),
        (&b"devtmpfs"[..], Filesystem::Devtmpfs),
        (&b"cgroup2"[..], Filesystem::Cgroup2),
        (&b"btrfs"[..], Filesystem::Btrfs { source: 5, read_only: false }),
    ] {
        assert_eq!(filesystem_named(name, 5, false), Ok(found));
    }
    assert_eq!(filesystem_named(b"ext4", 5, true), Err(Errno::ENODEV));
    assert_eq!(filesystem_named(b"tmpfs", 0, true), Err(Errno::EINVAL));
    assert_eq!(filesystem_named(b"cgroup2", 0, true), Ok(Filesystem::Cgroup2));
    assert_eq!(filesystem_named(b"btrfs", 0, false), Err(Errno::EINVAL));
    assert_eq!(
        mounting(&Some(b"btrfs".to_vec()), 5, MS_RDONLY, &Credentials::root()),
        Ok(Filesystem::Btrfs { source: 5, read_only: true })
    );
    assert_eq!(source_disk(Ok(FileType::BlockDevice)), Ok(()));
    assert_eq!(source_disk(Ok(FileType::Regular)), Err(Errno::ENOTBLK));
    assert_eq!(source_disk(Err(Errno::ENOENT)), Err(Errno::ENOENT));
    let mut space = program();
    assert_eq!(space.copy_to_user(PAGE, b"proc\0"), Ok(()));
    assert_eq!(sys_mount(&space, PAGE), Ok(Some(b"proc".to_vec())));
    assert_eq!(sys_mount(&space, 0), Ok(None));
    assert_eq!(sys_mount(&space, 64), Err(Errno::EFAULT));
}

#[test]
fn there_are_no_extended_attributes() {
    let w = world();
    assert_eq!(xattr_at(Ok(()), Xattr::Get), Err(Errno::ENODATA));
    assert_eq!(xattr_at(Ok(()), Xattr::List), Ok(0));
    assert_eq!(xattr_at(Err(Errno::ENOENT), Xattr::Get), Err(Errno::ENOENT));
    assert_eq!(xattr_of(&w.table, &w.open, 99, Xattr::List), Err(Errno::EBADF));
    assert_eq!(
        xattr_of(&w.table, &w.open, 3, Xattr::Change),
        xattr_at(Ok(()), Xattr::Change)
    );
}

#[test]
fn file_calls_are_routed_by_name() {
    assert_eq!(
        dispatch(Syscall::Fdatasync, &[3, 0, 0, 0, 0, 0], X86),
        Some(Request::Fsync { fd: 3, data_only: true })
    );
    assert_eq!(
        dispatch(Syscall::Pipe2, &[PAGE, 0x800, 0, 0, 0, 0], X86),
        Some(Request::Pipe { at: PAGE, flags: 0x800 })
    );
    assert_eq!(
        dispatch(Syscall::Fallocate, &[3, 1, 5, 6, 0, 0], X86),
        Some(Request::Fallocate { fd: 3, mode: 1, offset: 5, len: 6 })
    );
    assert_eq!(dispatch(Syscall::Getpid, &[0; 6], X86), None);
}

#[test]
fn the_wide_description_has_its_size_checked_first() {
    let mut space = program();
    assert_eq!(sys_statfs64(&mut space, 84, Ok(vec![7; 84]), PAGE), Ok(0));
    assert_eq!(space.copy_from_user(PAGE, 85).unwrap()[83..], [7, 0]);
    assert_eq!(
        sys_statfs64(&mut space, 85, Err(Errno::ENOENT), PAGE),
        Err(Errno::EINVAL)
    );
    assert_eq!(
        sys_statfs64(&mut space, 88, Err(Errno::ENOENT), PAGE),
        Err(Errno::ENOENT)
    );
}
