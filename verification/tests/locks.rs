//! Locks on files: on the whole of one, and on ranges of its bytes.

use syscall::abi::Arch;
use syscall::errno::Errno;
use syscall::fd::{standard_streams, sys_close, sys_dup, FdTable, FileType, OpenFile};
use syscall::flock::{
    key_of, retry, sys_flock, Holders, Key, Mode, Step, LOCK_EX, LOCK_NB, LOCK_SH, LOCK_UN,
};
use syscall::records::{
    carve, close, close_marked, command, conflict, lock_byte, place, range, sys_fcntl_lock,
    sweep, tried, unlock_all, Command, Flock, Locked, Owner, Record, Records, F_RDLCK, F_UNLCK, F_WRLCK,
    OFFSET_MAX,
};
use syscall::uaccess::{AddressSpace, Segment};

const PAGE: u64 = 0x10_0000;

fn described(readable: bool, writable: bool) -> OpenFile {
    OpenFile {
        kind: FileType::Regular,
        path_only: false,
        readable,
        writable,
        append: false,
        nonblock: false,
        filesystem: 1,
        ino: 42,
        pollable: false,
        epoll_set: false,
        console: false,
        mappable: true,
        seals: 0,
    }
}

fn program() -> AddressSpace {
    AddressSpace {
        id: 1,
        user_end: 0x8000_0000,
        segments: vec![Segment {
            start: PAGE,
            bytes: vec![0; 4096],
            writable: true,
            shared: None,
        }],
    }
}

/// Descriptors 3 and 4 are two descriptions of one file.
fn two_opens() -> (FdTable, Vec<OpenFile>) {
    let mut table = standard_streams(0);
    assert_eq!(table.insert(1, false), Ok(3));
    assert_eq!(table.insert(2, false), Ok(4));
    (
        table,
        vec![described(true, true), described(true, true), described(true, false)],
    )
}

fn answer(out: (Step, bool)) -> Result<usize, Errno> {
    match out.0 {
        Step::Answer(answer) => answer,
        Step::Wait { .. } => panic!("it waits"),
    }
}

#[test]
fn check_flock_belongs_to_the_description() {
    let (mut table, mut open) = two_opens();
    let mut holders = Holders::new();
    let mut alive = vec![true, true, true];
    assert_eq!(answer(sys_flock(&mut holders, &alive, &table, &open, 3, LOCK_EX)), Ok(0));
    for mode in [LOCK_EX, LOCK_SH] {
        assert_eq!(
            answer(sys_flock(&mut holders, &alive, &table, &open, 4, mode | LOCK_NB)),
            Err(Errno::EAGAIN)
        );
    }
    assert_eq!(
        answer(sys_flock(&mut holders, &alive, &table, &open, 3, LOCK_EX | LOCK_NB)),
        Ok(0)
    );

    // A duplicate converts its description's lock.
    assert_eq!(sys_dup(&mut table, 3), Ok(5));
    assert_eq!(
        answer(sys_flock(&mut holders, &alive, &table, &open, 5, LOCK_SH | LOCK_NB)),
        Ok(0)
    );
    assert_eq!(
        answer(sys_flock(&mut holders, &alive, &table, &open, 4, LOCK_SH | LOCK_NB)),
        Ok(0)
    );
    assert_eq!(answer(sys_flock(&mut holders, &alive, &table, &open, 4, LOCK_UN)), Ok(0));
    assert_eq!(
        answer(sys_flock(&mut holders, &alive, &table, &open, 5, LOCK_EX | LOCK_NB)),
        Ok(0)
    );

    // The description lives while one of its descriptors does.
    assert_eq!(sys_close(&mut table, 3), Ok(0));
    assert_eq!(
        answer(sys_flock(&mut holders, &alive, &table, &open, 4, LOCK_SH | LOCK_NB)),
        Err(Errno::EAGAIN)
    );
    assert_eq!(sys_close(&mut table, 5), Ok(0));
    alive[1] = false;
    assert_eq!(
        answer(sys_flock(&mut holders, &alive, &table, &open, 4, LOCK_EX | LOCK_NB)),
        Ok(0)
    );
    assert_eq!(answer(sys_flock(&mut holders, &alive, &table, &open, 4, LOCK_UN)), Ok(0));

    assert_eq!(
        answer(sys_flock(&mut holders, &alive, &table, &open, 4, 0)),
        Err(Errno::EINVAL)
    );
    assert_eq!(
        answer(sys_flock(&mut holders, &alive, &table, &open, 4, LOCK_SH | LOCK_EX)),
        Err(Errno::EINVAL)
    );
    assert_eq!(sys_close(&mut table, 4), Ok(0));
    assert_eq!(
        answer(sys_flock(&mut holders, &alive, &table, &open, 4, LOCK_SH)),
        Err(Errno::EBADF)
    );
    open[2].path_only = true;
    assert_eq!(table.insert(2, false), Ok(3));
    assert_eq!(
        answer(sys_flock(&mut holders, &alive, &table, &open, 3, LOCK_SH)),
        Err(Errno::EBADF)
    );
}

#[test]
fn duplicates_share_one_lock_and_descriptions_contend() {
    let (mut table, open) = two_opens();
    assert_eq!(sys_dup(&mut table, 3), Ok(5));
    let alive = vec![true, true, true];
    let mut by_original = Holders::new();
    let mut by_duplicate = Holders::new();
    for (operation, fd) in [(LOCK_EX, 3), (LOCK_SH, 5), (LOCK_UN, 3)] {
        assert_eq!(answer(sys_flock(&mut by_original, &alive, &table, &open, 3, operation)), Ok(0));
        assert_eq!(
            answer(sys_flock(&mut by_duplicate, &alive, &table, &open, fd, operation)),
            Ok(0)
        );
        assert_eq!(by_original.list, by_duplicate.list);
    }
    assert_eq!(answer(sys_flock(&mut by_original, &alive, &table, &open, 5, LOCK_EX)), Ok(0));
    assert_eq!(
        answer(sys_flock(&mut by_original, &alive, &table, &open, 4, LOCK_SH | LOCK_NB)),
        Err(Errno::EAGAIN)
    );
}

#[test]
fn a_refused_conversion_leaves_no_lock() {
    let (table, open) = two_opens();
    let mut holders = Holders::new();
    let alive = vec![true, true, true];
    for fd in [3, 4] {
        assert_eq!(answer(sys_flock(&mut holders, &alive, &table, &open, fd, LOCK_SH)), Ok(0));
    }
    assert_eq!(
        answer(sys_flock(&mut holders, &alive, &table, &open, 3, LOCK_EX | LOCK_NB)),
        Err(Errno::EAGAIN)
    );
    assert_eq!(holders.list.len(), 1);
    assert_eq!(holders.list[0].owner, 2);
}

#[test]
fn a_waiter_takes_the_lock_once_it_is_free() {
    let (table, open) = two_opens();
    let mut holders = Holders::new();
    let mut alive = vec![true, true, true];
    assert_eq!(answer(sys_flock(&mut holders, &alive, &table, &open, 3, LOCK_EX)), Ok(0));
    let (owner, key, mode) = match sys_flock(&mut holders, &alive, &table, &open, 4, LOCK_EX).0 {
        Step::Wait { owner, key, mode } => (owner, key, mode),
        Step::Answer(_) => panic!("it did not wait"),
    };
    assert_eq!((owner, mode), (2, Mode::Exclusive));
    assert_eq!(key, key_of(&open[2]));
    assert_eq!(
        answer(retry(&mut holders, &alive, owner, key, mode, true)),
        Err(Errno::EINTR)
    );
    alive[1] = false;
    assert_eq!(answer(retry(&mut holders, &alive, owner, key, mode, false)), Ok(0));
    assert_eq!(holders.list.len(), 1);
}

#[test]
fn locks_on_other_files_are_untouched() {
    let (table, mut open) = two_opens();
    open[2].ino = 43;
    let mut holders = Holders::new();
    let alive = vec![true, true, true];
    assert_eq!(answer(sys_flock(&mut holders, &alive, &table, &open, 3, LOCK_EX)), Ok(0));
    assert_eq!(
        answer(sys_flock(&mut holders, &alive, &table, &open, 4, LOCK_EX | LOCK_NB)),
        Ok(0)
    );
    assert_eq!(answer(sys_flock(&mut holders, &alive, &table, &open, 4, LOCK_UN)), Ok(0));
    assert_eq!(holders.list.len(), 1);
    assert_eq!(holders.list[0].owner, 1);
}

fn stage_flock(space: &mut AddressSpace, at: u64, kind: u32, start: i64, len: i64, pid: i32) {
    let mut bytes = vec![0_u8; 32];
    bytes[0..2].copy_from_slice(&(kind as u16).to_le_bytes());
    bytes[8..16].copy_from_slice(&start.to_le_bytes());
    bytes[16..24].copy_from_slice(&len.to_le_bytes());
    bytes[24..28].copy_from_slice(&pid.to_le_bytes());
    assert!(space.copy_to_user(at, &bytes).is_ok());
}

fn reported_flock(space: &AddressSpace, at: u64) -> (u32, i64, i64, i32) {
    let bytes = space.copy_from_user(at, 32).unwrap();
    let word = |from: usize| {
        let mut value = [0_u8; 8];
        value.copy_from_slice(&bytes[from..from + 8]);
        i64::from_le_bytes(value)
    };
    let mut pid = [0_u8; 4];
    pid.copy_from_slice(&bytes[24..28]);
    (
        u32::from(u16::from_le_bytes([bytes[0], bytes[1]])),
        word(8),
        word(16),
        i32::from_le_bytes(pid),
    )
}

fn ofd(cmd: u32) -> Command {
    command(cmd, false, Arch::X86_64).unwrap()
}

#[test]
fn check_record_locks_follow_linux() {
    let (getlk, setlk) = (ofd(5), ofd(6));
    let (ofd_getlk, ofd_setlk) = (ofd(36), ofd(37));
    let mut space = program();
    let (mut table, mut open) = two_opens();
    open[2] = described(true, true);
    open.push(described(true, false));
    assert_eq!(table.insert(3, false), Ok(5));
    let mut records = Records::new();
    let me = 10_u32;
    let other = 11_u32;
    let (first, second, read_only) = (3, 4, 5);
    let mut lock = |space: &mut AddressSpace, pid: u32, fd: i32, cmd: Command| {
        sys_fcntl_lock(space, &table, &open, &mut records, pid, fd, cmd, PAGE, 0, 0, true)
    };

    stage_flock(&mut space, PAGE, F_WRLCK, 0, 100, 0);
    assert_eq!(lock(&mut space, me, first, ofd_setlk), Ok(Locked::Done));
    stage_flock(&mut space, PAGE, F_WRLCK, 50, 10, 0);
    assert_eq!(lock(&mut space, me, second, ofd_setlk), Err(Errno::EAGAIN));
    assert_eq!(lock(&mut space, me, second, ofd_getlk), Ok(Locked::Done));
    assert_eq!(reported_flock(&space, PAGE), (F_WRLCK, 0, 100, -1));
    stage_flock(&mut space, PAGE, F_WRLCK, 100, 10, 7);
    assert_eq!(lock(&mut space, me, second, ofd_setlk), Err(Errno::EINVAL));
    stage_flock(&mut space, PAGE, F_WRLCK, 100, 10, 0);
    assert_eq!(lock(&mut space, me, second, ofd_setlk), Ok(Locked::Done));

    stage_flock(&mut space, PAGE, F_RDLCK, 200, 0, 0);
    assert_eq!(lock(&mut space, me, first, setlk), Ok(Locked::Done));
    stage_flock(&mut space, PAGE, F_WRLCK, 300, 10, 0);
    assert_eq!(lock(&mut space, me, second, ofd_setlk), Err(Errno::EAGAIN));

    // Between processes.
    stage_flock(&mut space, PAGE, F_WRLCK, 200, 10, 0);
    assert_eq!(lock(&mut space, other, second, setlk), Err(Errno::EAGAIN));
    stage_flock(&mut space, PAGE, F_WRLCK, 250, 1, 0);
    assert_eq!(lock(&mut space, other, second, getlk), Ok(Locked::Done));
    assert_eq!(reported_flock(&space, PAGE), (F_RDLCK, 200, 0, 10));

    stage_flock(&mut space, PAGE, 7, 0, 1, 0);
    assert_eq!(lock(&mut space, me, second, setlk), Err(Errno::EINVAL));
    stage_flock(&mut space, PAGE, F_WRLCK, 0, 1, 0);
    assert_eq!(lock(&mut space, me, read_only, setlk), Err(Errno::EBADF));
    stage_flock(&mut space, PAGE, F_UNLCK, 0, 0, 0);
    assert_eq!(lock(&mut space, me, second, ofd_setlk), Ok(Locked::Done));
}

#[test]
fn check_record_locks_between_processes() {
    let (getlk, setlk) = (ofd(5), ofd(6));
    let mut space = program();
    let (table, open) = two_opens();
    let mut records = Records::new();
    let (me, other) = (10_u32, 11_u32);

    stage_flock(&mut space, PAGE, F_RDLCK, 200, 0, 0);
    assert_eq!(
        sys_fcntl_lock(&mut space, &table, &open, &mut records, me, 3, setlk, PAGE, 0, 0, true),
        Ok(Locked::Done)
    );
    stage_flock(&mut space, PAGE, F_WRLCK, 300, 1, 0);
    assert_eq!(
        sys_fcntl_lock(&mut space, &table, &open, &mut records, other, 3, setlk, PAGE, 0, 0, true),
        Err(Errno::EAGAIN)
    );
    // Any close of the file by the process releases its classic lock, and no
    // lock of another's: here it is a descriptor that set none.
    let mut mine = two_opens().0;
    assert_eq!(mine.insert(2, false), Ok(5));
    assert_eq!(close(&mut mine, &open, &mut records, other, 5), Ok(0));
    assert_eq!(held_by(&records, Owner::Process(me)).len(), 1);
    assert_eq!(close(&mut mine, &open, &mut records, me, 5), Err(Errno::EBADF));
    assert_eq!(held_by(&records, Owner::Process(me)).len(), 1);
    assert_eq!(close(&mut mine, &open, &mut records, me, 4), Ok(0));
    assert_eq!(held_by(&records, Owner::Process(me)).len(), 0);
    stage_flock(&mut space, PAGE, F_WRLCK, 200, 10, 0);
    assert_eq!(
        sys_fcntl_lock(&mut space, &table, &open, &mut records, other, 3, setlk, PAGE, 0, 0, true),
        Ok(Locked::Done)
    );
    stage_flock(&mut space, PAGE, F_UNLCK, 203, 2, 0);
    assert_eq!(
        sys_fcntl_lock(&mut space, &table, &open, &mut records, other, 3, setlk, PAGE, 0, 0, true),
        Ok(Locked::Done)
    );
    stage_flock(&mut space, PAGE, F_WRLCK, 200, 10, 0);
    assert_eq!(
        sys_fcntl_lock(&mut space, &table, &open, &mut records, me, 4, getlk, PAGE, 0, 0, true),
        Ok(Locked::Done)
    );
    assert_eq!(reported_flock(&space, PAGE), (F_WRLCK, 200, 3, 11));
    // Nothing is in the way of the released middle.
    stage_flock(&mut space, PAGE, F_WRLCK, 203, 2, 0);
    assert_eq!(
        sys_fcntl_lock(&mut space, &table, &open, &mut records, me, 4, getlk, PAGE, 0, 0, true),
        Ok(Locked::Done)
    );
    assert_eq!(reported_flock(&space, PAGE), (F_UNLCK, 203, 2, 0));
}

fn held_by(records: &Records, owner: Owner) -> Vec<(u64, u64, bool)> {
    let mut found: Vec<(u64, u64, bool)> = records
        .list
        .iter()
        .filter(|r| r.owner == owner)
        .map(|r| (r.start, r.end, r.write))
        .collect();
    found.sort();
    found
}

const FILE: Key = Key { filesystem: 1, ino: 42 };

#[test]
fn touching_ranges_merge_in_one_mode_and_not_in_two() {
    let mut records = Records::new();
    let me = Owner::Process(1);
    assert!(place(&mut records, FILE, me, true, 0, 9));
    assert!(place(&mut records, FILE, me, true, 20, 29));
    assert!(place(&mut records, FILE, me, true, 10, 19));
    assert_eq!(held_by(&records, me), vec![(0, 29, true)]);
    assert!(place(&mut records, FILE, me, false, 30, 39));
    assert_eq!(held_by(&records, me), vec![(0, 29, true), (30, 39, false)]);
    // A range taken again in the other mode replaces what was there.
    assert!(place(&mut records, FILE, me, false, 5, 9));
    assert_eq!(
        held_by(&records, me),
        vec![(0, 4, true), (5, 9, false), (10, 29, true), (30, 39, false)]
    );
    carve(&mut records, FILE, me, 3, 34);
    assert_eq!(held_by(&records, me), vec![(0, 2, true), (35, 39, false)]);
}

#[test]
fn conflicting_records_are_never_held_together() {
    let mut records = Records::new();
    let (a, b) = (Owner::Process(1), Owner::Description(1));
    assert!(place(&mut records, FILE, a, false, 0, 99));
    assert!(place(&mut records, FILE, b, false, 50, 149));
    assert!(!place(&mut records, FILE, b, true, 99, 99));
    assert!(place(&mut records, FILE, b, true, 100, 100));
    assert_eq!(
        conflict(&records, FILE, a, false, 100, 100),
        Some(Record { key: FILE, owner: b, write: true, start: 100, end: 100 })
    );
    assert_eq!(conflict(&records, FILE, a, false, 101, 120), None);
    // Another file is another matter.
    assert!(place(&mut records, Key { filesystem: 1, ino: 7 }, a, true, 100, 100));
    // Giving a range up makes room.
    carve(&mut records, FILE, a, 0, OFFSET_MAX);
    assert!(place(&mut records, FILE, b, true, 0, OFFSET_MAX));
    assert_eq!(held_by(&records, b), vec![(0, OFFSET_MAX, true)]);
}

#[test]
fn every_other_byte_is_a_lock_of_its_own() {
    let mut records = Records::new();
    let me = Owner::Description(3);
    for at in 0..4 {
        assert_eq!(lock_byte(&mut records, FILE, me, at, true), Ok(()));
    }
    assert_eq!(records.list.len(), 4);
    let other = Owner::Description(4);
    assert_eq!(lock_byte(&mut records, FILE, other, 2, true), Err(Errno::EAGAIN));
    assert_eq!(lock_byte(&mut records, FILE, other, 9, false), Err(Errno::ENOLCK));
    assert_eq!(records.list.len(), 4);
    unlock_all(&mut records, FILE, me);
    assert_eq!(records.list.len(), 0);
}

#[test]
fn ranges_are_counted_from_where_they_say() {
    let ask = |whence: u32, start: i64, len: i64| {
        range(&Flock { kind: 0, whence, start, len, pid: 0 }, 1000, 5000)
    };
    assert_eq!(ask(0, 10, 5), Ok((10, 14)));
    assert_eq!(ask(1, 10, 5), Ok((1010, 1014)));
    assert_eq!(ask(2, -10, 0), Ok((4990, OFFSET_MAX)));
    assert_eq!(ask(0, 10, -5), Ok((5, 9)));
    assert_eq!(ask(0, 3, -5), Err(Errno::EINVAL));
    assert_eq!(ask(0, -1, 5), Err(Errno::EINVAL));
    assert_eq!(ask(3, 0, 5), Err(Errno::EINVAL));
    assert_eq!(ask(1, i64::MAX, 5), Err(Errno::EOVERFLOW));
    assert_eq!(ask(0, i64::MAX, 2), Err(Errno::EOVERFLOW));
}

#[test]
fn a_lock_is_waited_for_or_refused_for_want_of_room() {
    let mut space = program();
    let (table, open) = two_opens();
    let mut records = Records::new();
    assert!(place(&mut records, key_of(&open[1]), Owner::Process(1), true, 0, 9));
    stage_flock(&mut space, PAGE, F_RDLCK, 0, 1, 0);
    let wait = ofd(7);
    assert_eq!(
        sys_fcntl_lock(&mut space, &table, &open, &mut records, 2, 3, wait, PAGE, 0, 0, true),
        Ok(Locked::Wait)
    );
    assert_eq!(
        sys_fcntl_lock(&mut space, &table, &open, &mut records, 2, 3, wait, PAGE, 0, 0, false),
        Err(Errno::ENOLCK)
    );
    assert_eq!(
        sys_fcntl_lock(&mut space, &table, &open, &mut records, 2, 9, wait, PAGE, 0, 0, true),
        Err(Errno::EBADF)
    );
    assert_eq!(
        sys_fcntl_lock(&mut space, &table, &open, &mut records, 2, 3, wait, 64, 0, 0, true),
        Err(Errno::EFAULT)
    );
    assert_eq!(command(99, false, Arch::X86_64), None);
    assert_eq!(command(13, false, Arch::X86_64), None);
    assert!(command(13, true, Arch::Arm).unwrap().wide);
    assert!(!command(6, true, Arch::Arm).unwrap().wide);
}

#[test]
fn a_narrow_structure_cannot_report_a_far_lock() {
    let mut space = program();
    let (table, open) = two_opens();
    let mut records = Records::new();
    let far = 0x1_0000_0000;
    assert!(place(&mut records, key_of(&open[1]), Owner::Process(1), true, far, far + 9));
    // A narrow request to the last byte there can be.
    assert!(space.copy_to_user(PAGE, &[0; 16]).is_ok());
    let narrow = command(5, false, Arch::Arm).unwrap();
    assert_eq!(
        sys_fcntl_lock(&mut space, &table, &open, &mut records, 2, 3, narrow, PAGE, 0, 0, true),
        Err(Errno::EOVERFLOW)
    );
    assert!(place(&mut records, key_of(&open[1]), Owner::Process(1), true, 16, 19));
    assert_eq!(
        sys_fcntl_lock(&mut space, &table, &open, &mut records, 2, 3, narrow, PAGE, 0, 0, true),
        Err(Errno::EOVERFLOW)
    );
    unlock_all(&mut records, key_of(&open[1]), Owner::Process(1));
    assert!(place(&mut records, key_of(&open[1]), Owner::Process(1), true, 16, 19));
    assert_eq!(
        sys_fcntl_lock(&mut space, &table, &open, &mut records, 2, 3, narrow, PAGE, 0, 0, true),
        Ok(Locked::Done)
    );
    let bytes = space.copy_from_user(PAGE, 16).unwrap();
    assert_eq!(bytes, vec![1, 0, 0, 0, 16, 0, 0, 0, 4, 0, 0, 0, 1, 0, 0, 0]);
}

#[test]
fn descriptors_that_execve_closes_release_too() {
    let open = vec![
        described(true, true),
        described(true, true),
        OpenFile { ino: 43, ..described(true, true) },
    ];
    let mut table = standard_streams(0);
    assert_eq!(table.insert(1, true), Ok(3));
    assert_eq!(table.insert(2, false), Ok(4));
    let mut records = Records::new();
    let me = Owner::Process(10);
    let description = Owner::Description(1);
    assert!(place(&mut records, key_of(&open[1]), me, true, 0, 9));
    assert!(place(&mut records, key_of(&open[1]), description, true, 20, 29));
    assert!(place(&mut records, key_of(&open[2]), me, true, 0, 9));
    assert_eq!(close_marked(&mut table, &open, &mut records, 10), vec![1]);
    // The kept file's lock, and the description's, stay.
    assert_eq!(held_by(&records, me), vec![(0, 9, true)]);
    assert_eq!(held_by(&records, description), vec![(20, 29, true)]);
    assert_eq!(table.get(3), Err(Errno::EBADF));
    assert_eq!(table.get(4), Ok(2));
}

#[test]
fn a_description_that_closed_holds_no_range() {
    let mut records = Records::new();
    assert!(place(&mut records, FILE, Owner::Description(1), true, 0, 9));
    assert!(place(&mut records, FILE, Owner::Description(2), true, 20, 29));
    assert!(place(&mut records, FILE, Owner::Process(7), false, 40, 49));
    sweep(&mut records, &vec![true, false, true]);
    assert_eq!(held_by(&records, Owner::Description(1)), vec![]);
    assert_eq!(held_by(&records, Owner::Description(2)), vec![(20, 29, true)]);
    assert_eq!(held_by(&records, Owner::Process(7)), vec![(40, 49, false)]);
    // One past the end of the list is no description at all.
    sweep(&mut records, &vec![true, false]);
    assert_eq!(records.list.len(), 1);
}

#[test]
fn a_wait_for_a_range_goes_on_until_a_signal() {
    assert_eq!(tried(Ok(Locked::Done), true), Some(Ok(0)));
    assert_eq!(tried(Ok(Locked::Wait), false), None);
    assert_eq!(tried(Ok(Locked::Wait), true), Some(Err(Errno::EINTR)));
    assert_eq!(tried(Err(Errno::EAGAIN), false), Some(Err(Errno::EAGAIN)));
}
