//! Descriptors: opening, duplicating, changing and closing them, and moving
//! bytes through them.

use syscall::abi::Arch;
use syscall::errno::Errno;
use syscall::fd::{
    all_named, arg, decode_open_flags, finish_open, name_new, number, standard_streams,
    start_for, start_location, status_word, sys_close, sys_dup, sys_dup2, sys_dup3, sys_fcntl,
    sys_ftruncate, sys_ioctl, sys_llseek, sys_lseek, sys_openat, user_path, whence, FdTable,
    FileType, Ioctl, OpenFile, Slot, Start, AT_FDCWD, F_DUPFD, F_DUPFD_CLOEXEC, F_GETFD, F_GETFL,
    F_SETFD, F_SETFL, MAX_LIMIT, O_APPEND, O_CLOEXEC, O_CREAT, O_EXCL, O_NONBLOCK, O_PATH,
    O_RDONLY, O_RDWR, O_TRUNC, O_WRONLY,
};
use syscall::file::{
    sys_pread64, sys_pwrite64, sys_read, sys_readv, sys_write, sys_writev, Whence,
};
use syscall::memfile::MemoryFile;
use syscall::uaccess::{AddressSpace, Segment};

const PAGE: u64 = 0x10_0000;
const DATA: &[u8] = b"descriptors, stage 8";
const AT_DATA: u64 = PAGE + 256;
const AT_BACK: u64 = PAGE + 512;
const AT_RESULT: u64 = PAGE + 1024;
const KERNEL_HALF: u64 = 0xFFFF_8000_0000_0000;

fn program() -> AddressSpace {
    let mut bytes = vec![0_u8; 4096];
    bytes[..22].copy_from_slice(b"/tmp/descriptor-check\0");
    bytes[64..81].copy_from_slice(b"descriptor-check\0");
    bytes[256..256 + DATA.len()].copy_from_slice(DATA);
    AddressSpace {
        id: 1,
        user_end: 0x8000_0000,
        segments: vec![Segment { start: PAGE, bytes, writable: true, shared: None }],
    }
}

fn described(kind: FileType, readable: bool, writable: bool) -> OpenFile {
    OpenFile {
        kind,
        path_only: false,
        readable,
        writable,
        append: false,
        nonblock: false,
        filesystem: 1,
        ino: 42,
        pollable: false,
        epoll_set: false,
        console: false,
        mappable: kind == FileType::Regular,
        seals: 0,
    }
}

fn console() -> OpenFile {
    OpenFile { console: true, pollable: true, ..described(FileType::CharDevice, true, true) }
}

/// The console on the first three descriptors, and a file on the fourth.
struct World {
    space: AddressSpace,
    table: FdTable,
    open: Vec<OpenFile>,
    files: Vec<MemoryFile>,
}

fn world() -> World {
    let mut table = standard_streams(0);
    assert_eq!(table.insert(1, false), Ok(3));
    World {
        space: program(),
        table,
        open: vec![console(), described(FileType::Regular, true, true)],
        files: vec![
            MemoryFile::new_stream(Vec::new(), 4096),
            MemoryFile::regular(Vec::new(), true, true, 4096),
        ],
    }
}

#[test]
fn check_a_new_process_has_the_console() {
    let mut w = world();
    for fd in 0..3 {
        assert_eq!(sys_fcntl(&mut w.table, &mut w.open, &mut w.files, fd, F_GETFL, 0), Ok(O_RDWR as usize));
    }
    assert_eq!(
        sys_lseek(&w.table, &mut w.files, 1, 0, 1, Arch::X86_64),
        Err(Errno::ESPIPE)
    );
    assert_eq!(sys_ioctl(&w.table, &w.open, 99), Err(Errno::EBADF));
    assert_eq!(sys_ioctl(&w.table, &w.open, 1), Ok(Ioctl::Terminal));
}

#[test]
fn check_a_full_table_creates_nothing() {
    let mut w = world();
    assert_eq!(sys_close(&mut w.table, 3), Ok(0));
    assert_eq!(w.table.set_limit(3), Ok(()));
    let flags = O_RDWR | O_CREAT | O_EXCL;
    let refused =
        sys_openat(&w.space, &w.table, &w.open, 0o22, AT_FDCWD, PAGE, flags, 0o644, Arch::X86_64);
    assert_eq!(refused.err(), Some(Errno::EMFILE));
    assert_eq!(w.table.set_limit(1024), Ok(()));
    let opening =
        sys_openat(&w.space, &w.table, &w.open, 0o22, AT_FDCWD, PAGE, flags, 0o644, Arch::X86_64)
            .unwrap();
    assert_eq!(opening.path, b"/tmp/descriptor-check".to_vec());
    assert_eq!(opening.mode, 0o644);
    assert!(opening.flags.create && opening.flags.exclusive);
    let made = Ok(described(FileType::Regular, true, true));
    assert_eq!(finish_open(&mut w.table, &mut w.open, &opening, made), Ok(3));
}

#[test]
fn an_open_that_fails_names_nothing() {
    let mut w = world();
    let opening = sys_openat(
        &w.space,
        &w.table,
        &w.open,
        0,
        AT_FDCWD,
        PAGE,
        O_RDONLY,
        0,
        Arch::Aarch64,
    )
    .unwrap();
    assert_eq!(
        finish_open(&mut w.table, &mut w.open, &opening, Err(Errno::ENOENT)),
        Err(Errno::ENOENT)
    );
    assert_eq!(w.table.get(4), Err(Errno::EBADF));
    assert_eq!(w.open.len(), 2);
}

#[test]
fn check_a_file_opens_on_the_lowest_free_descriptor() {
    let mut w = world();
    assert_eq!(sys_close(&mut w.table, 3), Ok(0));
    let flags = O_RDWR | O_CREAT | O_TRUNC | O_CLOEXEC;
    let opening =
        sys_openat(&w.space, &w.table, &w.open, 0, AT_FDCWD, PAGE, flags, 0o644, Arch::X86_64)
            .unwrap();
    let made = Ok(described(FileType::Regular, true, true));
    assert_eq!(finish_open(&mut w.table, &mut w.open, &opening, made), Ok(3));
    assert_eq!(sys_fcntl(&mut w.table, &mut w.open, &mut w.files, 3, F_GETFD, 0), Ok(1));
    assert_eq!(sys_fcntl(&mut w.table, &mut w.open, &mut w.files, 3, F_SETFD, 0), Ok(0));
    assert_eq!(sys_fcntl(&mut w.table, &mut w.open, &mut w.files, 3, F_GETFD, 0), Ok(0));
    assert_eq!(sys_fcntl(&mut w.table, &mut w.open, &mut w.files, 3, F_GETFL, 0), Ok(O_RDWR as usize));
}

#[test]
fn check_a_dup_shares_the_offset() {
    let mut w = world();
    let len = DATA.len();
    assert_eq!(
        sys_write(&w.space, &w.table, &w.open, &mut w.files, 3, AT_DATA, len as u64),
        Ok(len)
    );
    assert_eq!(sys_dup(&mut w.table, 3), Ok(4));
    assert_eq!(sys_lseek(&w.table, &mut w.files, 4, 0, 1, Arch::X86_64), Ok(len));
    assert_eq!(sys_lseek(&w.table, &mut w.files, 3, 0, 0, Arch::X86_64), Ok(0));
    assert_eq!(sys_read(&mut w.space, &w.table, &mut w.files, 4, AT_BACK, 64), Ok(len));
    assert_eq!(w.space.copy_from_user(AT_BACK, len), Ok(DATA.to_vec()));
    assert_eq!(sys_read(&mut w.space, &w.table, &mut w.files, 4, AT_BACK, 64), Ok(0));

    assert_eq!(
        sys_pwrite64(&w.space, &w.table, &w.open, &mut w.files, 3, AT_DATA, 3, 0),
        Ok(3)
    );
    assert_eq!(sys_pread64(&mut w.space, &w.table, &mut w.files, 4, AT_BACK, 5, 3), Ok(5));
    assert_eq!(w.space.copy_from_user(AT_BACK, 5), Ok(b"cript".to_vec()));
    assert_eq!(sys_lseek(&w.table, &mut w.files, 3, 0, 1, Arch::X86_64), Ok(len));
    assert_eq!(
        sys_pread64(&mut w.space, &w.table, &mut w.files, 3, AT_BACK, 1, -1),
        Err(Errno::EINVAL)
    );
}

#[test]
fn check_fcntl_and_dup3_follow_linux() {
    let mut w = world();
    let len = DATA.len();
    assert_eq!(
        sys_write(&w.space, &w.table, &w.open, &mut w.files, 3, AT_DATA, len as u64),
        Ok(len)
    );
    assert_eq!(sys_dup(&mut w.table, 3), Ok(4));
    assert_eq!(sys_fcntl(&mut w.table, &mut w.open, &mut w.files, 3, F_DUPFD, 10), Ok(10));
    assert_eq!(sys_fcntl(&mut w.table, &mut w.open, &mut w.files, 3, F_DUPFD_CLOEXEC, 10), Ok(11));
    assert_eq!(sys_fcntl(&mut w.table, &mut w.open, &mut w.files, 11, F_GETFD, 0), Ok(1));
    assert_eq!(sys_fcntl(&mut w.table, &mut w.open, &mut w.files, 3, 999, 0), Err(Errno::EINVAL));
    assert_eq!(sys_fcntl(&mut w.table, &mut w.open, &mut w.files, 99, 999, 0), Err(Errno::EBADF));
    assert_eq!(
        sys_fcntl(&mut w.table, &mut w.open, &mut w.files, 3, F_DUPFD, 5_000),
        Err(Errno::EINVAL)
    );
    assert_eq!(sys_dup3(&mut w.table, 3, 3, 0), Err(Errno::EINVAL));
    assert_eq!(sys_dup3(&mut w.table, 3, 20, 1), Err(Errno::EINVAL));
    assert_eq!(sys_dup3(&mut w.table, 3, 20, O_CLOEXEC), Ok(20));
    assert_eq!(sys_fcntl(&mut w.table, &mut w.open, &mut w.files, 20, F_GETFD, 0), Ok(1));
    assert_eq!(sys_dup2(&mut w.table, 3, 3), Ok(3));
    assert_eq!(sys_dup2(&mut w.table, 99, 3), Err(Errno::EBADF));
    assert_eq!(sys_dup2(&mut w.table, 3, 5_000), Err(Errno::EBADF));

    assert_eq!(
        sys_fcntl(&mut w.table, &mut w.open, &mut w.files, 3, F_SETFL, u64::from(O_APPEND)),
        Ok(0)
    );
    assert_eq!(
        sys_fcntl(&mut w.table, &mut w.open, &mut w.files, 4, F_GETFL, 0),
        Ok((O_RDWR | O_APPEND) as usize)
    );
    assert_eq!(sys_lseek(&w.table, &mut w.files, 3, 0, 0, Arch::X86_64), Ok(0));
    assert_eq!(
        sys_write(&w.space, &w.table, &w.open, &mut w.files, 3, AT_DATA, 1),
        Ok(1)
    );
    assert_eq!(sys_lseek(&w.table, &mut w.files, 3, 0, 1, Arch::X86_64), Ok(len + 1));

    assert_eq!(sys_ftruncate(&w.table, &mut w.files, 3, 4), Ok(0));
    assert_eq!(sys_lseek(&w.table, &mut w.files, 4, 0, 2, Arch::X86_64), Ok(4));
    assert_eq!(sys_ftruncate(&w.table, &mut w.files, 3, -1), Err(Errno::EINVAL));
    assert_eq!(sys_ftruncate(&w.table, &mut w.files, 99, 1), Err(Errno::EBADF));

    assert_eq!(
        sys_llseek(&mut w.space, &w.table, &mut w.files, 3, 0, 2, AT_RESULT, 0),
        Ok(0)
    );
    assert_eq!(w.space.get_number(AT_RESULT, 8), Ok(2));
}

#[test]
fn check_descriptors_are_refused_by_kind() {
    let mut w = world();
    w.open.push(described(FileType::Directory, true, false));
    w.files.push(MemoryFile::directory());
    assert_eq!(w.table.insert(2, false), Ok(4));
    w.open.push(described(FileType::Regular, true, false));
    w.files.push(MemoryFile::regular(DATA.to_vec(), true, false, 4096));
    assert_eq!(w.table.insert(3, false), Ok(5));

    assert_eq!(start_location(&w.table, &w.open, AT_FDCWD), Ok(Start::Default));
    assert_eq!(start_location(&w.table, &w.open, 4), Ok(Start::Directory(2)));
    assert_eq!(start_location(&w.table, &w.open, 3), Err(Errno::ENOTDIR));
    assert_eq!(start_location(&w.table, &w.open, 99), Err(Errno::EBADF));
    // An absolute path never looks at the descriptor.
    assert_eq!(start_for(&w.table, &w.open, 99, b"/tmp"), Ok(Start::Default));

    let relative =
        sys_openat(&w.space, &w.table, &w.open, 0, 4, PAGE + 64, O_RDONLY, 0, Arch::X86_64)
            .unwrap();
    assert_eq!(relative.start, Start::Directory(2));
    assert_eq!(sys_ioctl(&w.table, &w.open, 5), Err(Errno::ENOTTY));
    assert_eq!(
        sys_write(&w.space, &w.table, &w.open, &mut w.files, 5, AT_DATA, 1),
        Err(Errno::EBADF)
    );
    assert_eq!(
        sys_read(&mut w.space, &w.table, &mut w.files, 4, AT_BACK, 1),
        Err(Errno::EISDIR)
    );
    assert_eq!(sys_close(&mut w.table, 5), Ok(0));
    assert_eq!(sys_close(&mut w.table, 5), Err(Errno::EBADF));
    assert_eq!(
        sys_read(&mut w.space, &w.table, &mut w.files, 5, AT_BACK, 1),
        Err(Errno::EBADF)
    );
}

#[test]
fn the_lowest_free_number_is_the_one_taken() {
    let mut table = standard_streams(0);
    assert_eq!(table.insert(7, false), Ok(3));
    assert_eq!(table.insert(8, false), Ok(4));
    assert_eq!(sys_close(&mut table, 1), Ok(0));
    assert_eq!(table.free_from(0), Some(1));
    assert_eq!(table.free_from(2), Some(5));
    assert_eq!(sys_dup(&mut table, 4), Ok(1));
    assert_eq!(table.get(1), Ok(8));
    assert_eq!(table.set_limit(5), Ok(()));
    assert_eq!(sys_dup(&mut table, 4), Err(Errno::EMFILE));
    assert_eq!(table.set_limit(MAX_LIMIT + 1), Err(Errno::EPERM));
    assert_eq!(name_new(&mut table, Ok(9), true), Err(Errno::EMFILE));
    assert_eq!(name_new(&mut table, Err(Errno::ENOMEM), true), Err(Errno::ENOMEM));
    assert_eq!(table.set_limit(6), Ok(()));
    assert_eq!(name_new(&mut table, Ok(9), true), Ok(5));
    assert_eq!(table.slot(5), Ok(Slot { file: 9, cloexec: true }));
}

#[test]
fn every_descriptor_names_a_description() {
    let mut table = standard_streams(3);
    assert!(all_named(&table, 4));
    assert!(!all_named(&table, 3));
    for fd in 0..3 {
        assert_eq!(sys_close(&mut table, fd), Ok(0));
    }
    assert!(all_named(&table, 0));
}

#[test]
fn a_duplicate_outlives_its_original() {
    let mut table = standard_streams(3);
    assert_eq!(sys_dup(&mut table, 0), Ok(3));
    assert_eq!(sys_close(&mut table, 0), Ok(0));
    assert_eq!(table.get(3), Ok(3));
    assert_eq!(table.get(0), Err(Errno::EBADF));
}

#[test]
fn closing_on_exec_closes_exactly_the_marked() {
    let mut table = standard_streams(0);
    assert_eq!(table.insert(5, true), Ok(3));
    assert_eq!(table.insert(6, false), Ok(4));
    assert_eq!(table.insert(7, true), Ok(5));
    assert_eq!(table.take_cloexec(), vec![5, 7]);
    assert_eq!(table.get(3), Err(Errno::EBADF));
    assert_eq!(table.get(4), Ok(6));
    assert_eq!(table.get(5), Err(Errno::EBADF));
    assert_eq!(table.take_cloexec(), Vec::<usize>::new());
}

#[test]
fn status_flags_change_and_access_does_not() {
    let mut w = world();
    let all = u64::from(O_APPEND | O_NONBLOCK | O_WRONLY | O_CREAT);
    assert_eq!(sys_fcntl(&mut w.table, &mut w.open, &mut w.files, 3, F_SETFL, all), Ok(0));
    assert!(w.open[1].append && w.open[1].nonblock && w.open[1].readable && w.open[1].writable);
    assert_eq!(status_word(&w.open[1]), O_RDWR | O_APPEND | O_NONBLOCK);
    w.open[1].path_only = true;
    assert_eq!(sys_fcntl(&mut w.table, &mut w.open, &mut w.files, 3, F_SETFL, 0), Err(Errno::EBADF));
    assert_eq!(sys_fcntl(&mut w.table, &mut w.open, &mut w.files, 3, F_GETFL, 0), Ok(O_PATH as usize));
}

#[test]
fn arguments_are_narrowed() {
    assert_eq!(arg(0xFFFF_FFFF_0000_0003), 3);
    assert_eq!(arg(0xFFFF_FFFF), -1);
    assert_eq!(number(-1), Err(Errno::EBADF));
    assert_eq!(number(7), Ok(7));
    assert_eq!(whence(0), Ok(Whence::Start));
    assert_eq!(whence(2), Ok(Whence::End));
    assert_eq!(whence(9), Err(Errno::EINVAL));
    let w = world();
    assert_eq!(syscall::fd::file(&w.table, &w.open, 3).unwrap().ino, 42);
    assert_eq!(syscall::fd::file(&w.table, &w.open, -1), Err(Errno::EBADF));
    assert_eq!(user_path(&w.space, PAGE + 64), Ok(b"descriptor-check".to_vec()));
    assert_eq!(user_path(&w.space, 0x20_0000), Err(Errno::EFAULT));
    let long = AddressSpace {
        id: 1,
        user_end: 0x8000_0000,
        segments: vec![Segment {
            start: PAGE,
            bytes: vec![b'a'; 5000],
            writable: false,
            shared: None,
        }],
    };
    assert_eq!(user_path(&long, PAGE), Err(Errno::ENAMETOOLONG));
}

#[test]
fn open_flags_follow_the_machine() {
    let (x86, cloexec) = decode_open_flags(O_RDONLY | 0o200000 | O_CLOEXEC, Arch::X86_64);
    assert!(x86.directory && x86.read && !x86.write && cloexec);
    let (arm, _) = decode_open_flags(O_WRONLY | 0o40000, Arch::Aarch64);
    assert!(arm.directory && arm.write && !arm.read);
    let (other, _) = decode_open_flags(O_RDWR | 0o200000, Arch::Aarch64);
    assert!(!other.directory);
}

#[test]
fn a_write_sends_what_the_program_has() {
    let mut w = world();
    // Three segments, one of them empty.
    for (i, (at, len)) in [(AT_DATA, 3_u64), (AT_DATA, 0), (AT_DATA + 13, 5)].iter().enumerate() {
        let slot = AT_RESULT + 16 * i as u64;
        assert!(w.space.put_number(slot, *at, 8).is_ok());
        assert!(w.space.put_number(slot + 8, *len, 8).is_ok());
    }
    assert_eq!(
        sys_writev(
            &w.space,
            &w.table,
            &w.open,
            &mut w.files,
            3,
            AT_RESULT,
            3,
            Arch::X86_64
        ),
        Ok(8)
    );
    assert_eq!(w.files[1].contents, b"desstage".to_vec());
    assert_eq!(
        sys_writev(
            &w.space,
            &w.table,
            &w.open,
            &mut w.files,
            3,
            AT_RESULT,
            1025,
            Arch::X86_64
        ),
        Err(Errno::EINVAL)
    );
    assert_eq!(
        sys_write(&w.space, &w.table, &w.open, &mut w.files, 3, 0x7000_0000, 4),
        Err(Errno::EFAULT)
    );
}

#[test]
fn a_read_delivers_what_the_file_gave() {
    let mut w = world();
    w.files[1] = MemoryFile::regular(DATA.to_vec(), true, true, 4096);
    for (i, (at, len)) in [(AT_BACK, 4_u64), (AT_BACK + 100, 6)].iter().enumerate() {
        let slot = AT_RESULT + 16 * i as u64;
        assert!(w.space.put_number(slot, *at, 8).is_ok());
        assert!(w.space.put_number(slot + 8, *len, 8).is_ok());
    }
    assert_eq!(
        sys_readv(
            &mut w.space,
            &w.table,
            &w.open,
            &mut w.files,
            3,
            AT_RESULT,
            2,
            Arch::X86_64
        ),
        Ok(10)
    );
    assert_eq!(w.space.copy_from_user(AT_BACK, 4), Ok(b"desc".to_vec()));
    assert_eq!(w.space.copy_from_user(AT_BACK + 100, 6), Ok(b"riptor".to_vec()));
    assert_eq!(
        sys_read(&mut w.space, &w.table, &mut w.files, 3, 0x7000_0000, 4),
        Err(Errno::EFAULT)
    );
    // What could not be delivered was not taken either.
    assert_eq!(sys_read(&mut w.space, &w.table, &mut w.files, 3, AT_BACK, 2), Ok(2));
    assert_eq!(w.space.copy_from_user(AT_BACK, 2), Ok(b"s,".to_vec()));
}

#[test]
fn a_stream_takes_back_what_was_not_delivered() {
    let mut w = world();
    w.files[0] = MemoryFile::new_stream(b"typed".to_vec(), 4096);
    assert_eq!(
        sys_read(&mut w.space, &w.table, &mut w.files, 0, 0x7000_0000, 3),
        Err(Errno::EFAULT)
    );
    assert_eq!(sys_read(&mut w.space, &w.table, &mut w.files, 0, AT_BACK, 16), Ok(5));
    assert_eq!(w.space.copy_from_user(AT_BACK, 5), Ok(b"typed".to_vec()));
    assert_eq!(
        sys_pread64(&mut w.space, &w.table, &mut w.files, 0, AT_BACK, 1, 0),
        Err(Errno::ESPIPE)
    );
}

#[test]
fn check_write_reaches_the_console() {
    let mut w = world();
    let message = b"  hello   from a user buffer, by way of write(2)\n";
    assert_eq!(w.space.copy_to_user(PAGE, message), Ok(()));
    let mut write = |at: u64, fd: i32, len: u64| {
        sys_write(&w.space, &w.table, &w.open, &mut w.files, fd, at, len)
    };
    assert_eq!(write(PAGE, 1, message.len() as u64), Ok(message.len()));
    // A zero-length write still looks at its descriptor.
    assert_eq!(write(PAGE, 1, 0), Ok(0));
    assert_eq!(write(PAGE, 7, 1), Err(Errno::EBADF));
    // The descriptor is looked at before the buffer.
    assert_eq!(write(KERNEL_HALF, 7, 1), Err(Errno::EBADF));
    assert_eq!(write(KERNEL_HALF, 1, 1), Err(Errno::EFAULT));
}

#[test]
fn check_writev_gathers_in_order() {
    let mut w = world();
    let pieces: [&[u8]; 3] = [b"write(2)\n", b"  gathered by ", b"  three pieces, "];
    let mut offsets = [0_u64; 3];
    let mut cursor = PAGE;
    for (slot, piece) in offsets.iter_mut().zip(pieces) {
        assert_eq!(w.space.copy_to_user(cursor, piece), Ok(()));
        *slot = cursor;
        cursor += piece.len() as u64;
    }
    for (index, which) in [2_usize, 1, 0].into_iter().enumerate() {
        let entry = AT_RESULT + 16 * index as u64;
        assert_eq!(w.space.put_number(entry, offsets[which], 8), Ok(()));
        assert_eq!(w.space.put_number(entry + 8, pieces[which].len() as u64, 8), Ok(()));
    }
    let mut writev = |fd: i32, entries: u64| {
        sys_writev(
            &w.space,
            &w.table,
            &w.open,
            &mut w.files,
            fd,
            AT_RESULT,
            entries,
            Arch::X86_64,
        )
    };
    assert_eq!(writev(1, 3), Ok(39));
    assert_eq!(writev(1, 100_000), Err(Errno::EINVAL));
    assert_eq!(writev(1, 0), Ok(0));
    assert_eq!(writev(3, 3), Ok(39));
    assert_eq!(
        w.files[1].contents,
        b"  three pieces,   gathered by write(2)\n".to_vec()
    );
}

#[test]
fn a_file_gives_back_what_it_was_given() {
    let mut w = world();
    let data: Vec<u8> = (0..10_000_u32).map(|i| (i % 251) as u8).collect();
    let far = PAGE + 0x10_0000;
    let segment =
        Segment { start: far, bytes: data.clone(), writable: true, shared: None };
    assert!(w.space.add(segment));
    w.files[1] = MemoryFile::regular(b"before".to_vec(), true, true, 20_000);
    assert_eq!(
        sys_pwrite64(&w.space, &w.table, &w.open, &mut w.files, 3, far, 10_000, 3),
        Ok(10_000)
    );
    assert_eq!(w.space.copy_to_user(far, &vec![0; 10_000]), Ok(()));
    assert_eq!(
        sys_pread64(&mut w.space, &w.table, &mut w.files, 3, far, 10_000, 3),
        Ok(10_000)
    );
    assert_eq!(w.space.copy_from_user(far, 10_000), Ok(data));
    assert_eq!(w.files[1].contents[..3], *b"bef");
    assert_eq!(w.files[1].contents.len(), 10_003);
}
