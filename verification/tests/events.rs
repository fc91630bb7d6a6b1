//! Waiting on many descriptors at once, counters and memory files to wait on.

use syscall::abi::Arch;
use syscall::epoll::{
    deliver, encode, event_bytes, look, sys_epoll_create, sys_epoll_create1, sys_epoll_ctl,
    sys_epoll_pwait, sys_epoll_pwait2, sys_epoll_wait, Control, Interest, Waiting, EPOLLEXCLUSIVE,
    EPOLL_CLOEXEC, EPOLL_CTL_ADD, EPOLL_CTL_DEL, EPOLL_CTL_MOD,
};
use syscall::errno::Errno;
use syscall::eventfd::{
    sys_eventfd, sys_eventfd2, Counter, EFD_CLOEXEC, EFD_NONBLOCK, EFD_SEMAPHORE,
};
use syscall::fd::{standard_streams, FdTable, FileType, OpenFile};
use syscall::memfd::{shown_name, sys_memfd_create, MFD_ALLOW_SEALING, MFD_CLOEXEC};
use syscall::uaccess::{AddressSpace, Segment};

const PAGE: u64 = 0x10_0000;
const X86: Arch = Arch::X86_64;
const EPOLLIN: u32 = 1;
const MILLI: u64 = 1_000_000;

fn program() -> AddressSpace {
    AddressSpace {
        id: 1,
        user_end: 0x8000_0000,
        segments: vec![Segment {
            start: PAGE,
            bytes: vec![0; 4096],
            writable: true,
            shared: None,
        }],
    }
}

fn described(pollable: bool, epoll_set: bool) -> OpenFile {
    OpenFile {
        kind: FileType::CharDevice,
        path_only: false,
        readable: true,
        writable: true,
        append: false,
        nonblock: false,
        filesystem: 1,
        ino: 42,
        pollable,
        epoll_set,
        console: false,
        mappable: false,
        seals: 0,
    }
}

/// Descriptors: 3 a set, 4 something to poll, 5 something that is not, 6
/// another set.
fn opened() -> (FdTable, Vec<OpenFile>) {
    let mut table = standard_streams(0);
    for (file, fd) in [(1, 3), (2, 4), (3, 5), (4, 6)] {
        assert_eq!(table.insert(file, false), Ok(fd));
    }
    (
        table,
        vec![
            described(true, false),
            described(true, true),
            described(true, false),
            described(false, false),
            described(true, true),
        ],
    )
}

#[test]
fn an_event_is_laid_out_as_its_machine_does() {
    assert_eq!(event_bytes(X86), 12);
    assert_eq!(event_bytes(Arch::Aarch64), 16);
    assert_eq!(
        encode(EPOLLIN, 0x1122, X86),
        vec![1, 0, 0, 0, 0x22, 0x11, 0, 0, 0, 0, 0, 0]
    );
    assert_eq!(
        encode(EPOLLIN, 0x1122, Arch::Arm),
        vec![1, 0, 0, 0, 0, 0, 0, 0, 0x22, 0x11, 0, 0, 0, 0, 0, 0]
    );
}

#[test]
fn a_set_is_made() {
    assert_eq!(sys_epoll_create1(0), Ok(false));
    assert_eq!(sys_epoll_create1(EPOLL_CLOEXEC), Ok(true));
    assert_eq!(sys_epoll_create1(1), Err(Errno::EINVAL));
    assert_eq!(sys_epoll_create(1), Ok(false));
    assert_eq!(sys_epoll_create(0), Err(Errno::EINVAL));
}

#[test]
fn what_is_watched_is_said_by_control() {
    let (table, open) = opened();
    let mut space = program();
    assert_eq!(space.copy_to_user(PAGE, &encode(EPOLLIN, 77, X86)), Ok(()));
    let control = |space: &AddressSpace, epfd: i32, op: u32, fd: i32, event: u64| {
        sys_epoll_ctl(space, &table, &open, epfd, op, fd, event, X86)
    };
    let interest = Interest { events: EPOLLIN, data: 77 };
    assert_eq!(
        control(&space, 3, EPOLL_CTL_ADD, 4, PAGE),
        Ok(Control::Add { set: 1, fd: 4, target: 2, interest })
    );
    assert_eq!(
        control(&space, 3, EPOLL_CTL_MOD, 4, PAGE),
        Ok(Control::Modify { set: 1, fd: 4, target: 2, interest })
    );
    // To forget one needs no event.
    assert_eq!(
        control(&space, 3, EPOLL_CTL_DEL, 4, 0),
        Ok(Control::Remove { set: 1, fd: 4, target: 2 })
    );
    assert_eq!(control(&space, 3, EPOLL_CTL_ADD, 4, 64), Err(Errno::EFAULT));
    assert_eq!(control(&space, 9, EPOLL_CTL_ADD, 4, PAGE), Err(Errno::EBADF));
    assert_eq!(control(&space, 3, EPOLL_CTL_ADD, 9, PAGE), Err(Errno::EBADF));
    assert_eq!(control(&space, 3, EPOLL_CTL_ADD, 5, PAGE), Err(Errno::EPERM));
    assert_eq!(control(&space, 3, EPOLL_CTL_ADD, 3, PAGE), Err(Errno::EINVAL));
    assert_eq!(control(&space, 4, EPOLL_CTL_ADD, 3, PAGE), Err(Errno::EINVAL));
    assert_eq!(control(&space, 3, 9, 4, PAGE), Err(Errno::EINVAL));

    // One waiter alone is woken only of what can be watched so.
    assert_eq!(
        space.copy_to_user(PAGE, &encode(EPOLLIN | EPOLLEXCLUSIVE, 77, X86)),
        Ok(())
    );
    assert!(control(&space, 3, EPOLL_CTL_ADD, 4, PAGE).is_ok());
    assert_eq!(control(&space, 3, EPOLL_CTL_MOD, 4, PAGE), Err(Errno::EINVAL));
    assert_eq!(control(&space, 3, EPOLL_CTL_ADD, 6, PAGE), Err(Errno::EINVAL));
}

#[test]
fn a_wait_has_a_deadline_or_none() {
    let (table, open) = opened();
    let space = program();
    let wait = |fd: i32, at: u64, most: i32, timeout: i32| {
        sys_epoll_wait(&space, &table, &open, fd, at, most, timeout, 5 * MILLI, X86)
    };
    let plan = wait(3, PAGE, 8, 10).unwrap();
    assert_eq!((plan.set, plan.limit, plan.deadline), (1, 8, Some(15 * MILLI)));
    assert_eq!(wait(3, PAGE, 8, -1).unwrap().deadline, None);
    assert_eq!(wait(3, PAGE, 0, 0).err(), Some(Errno::EINVAL));
    assert_eq!(wait(3, PAGE, -1, 0).err(), Some(Errno::EINVAL));
    assert_eq!(wait(9, PAGE, 8, 0).err(), Some(Errno::EBADF));
    assert_eq!(wait(4, PAGE, 8, 0).err(), Some(Errno::EINVAL));
}

#[test]
fn a_wait_may_change_the_mask() {
    let (table, open) = opened();
    let mut space = program();
    assert_eq!(space.put_number(PAGE, 0xF0, 8), Ok(()));
    let a = [3, PAGE + 64, 8, 10, PAGE, 8];
    let (mask, plan) = sys_epoll_pwait(&space, &table, &open, &a, 0, X86).unwrap();
    assert_eq!((mask, plan.deadline), (Some(0xF0), Some(10 * MILLI)));
    let (none, _) =
        sys_epoll_pwait(&space, &table, &open, &[3, PAGE + 64, 8, 10, 0, 0], 0, X86).unwrap();
    assert_eq!(none, None);
    assert_eq!(
        sys_epoll_pwait(&space, &table, &open, &[3, PAGE + 64, 8, 10, PAGE, 4], 0, X86).err(),
        Some(Errno::EINVAL)
    );
    assert_eq!(space.put_number(PAGE + 16, 2, 8), Ok(()));
    let timed = [3, PAGE + 64, 8, PAGE + 16, 0, 8];
    let (_, plan) = sys_epoll_pwait2(&space, &table, &open, &timed, 7, X86).unwrap();
    assert_eq!(plan.deadline, Some(2_000_000_007));
    let forever = [3, PAGE + 64, 8, 0, 0, 8];
    let (_, plan) = sys_epoll_pwait2(&space, &table, &open, &forever, 7, X86).unwrap();
    assert_eq!(plan.deadline, None);
}

#[test]
fn a_wait_looks_until_something_is_ready() {
    assert_eq!(look(1, None, 5, true), Waiting::Deliver);
    assert_eq!(look(0, Some(5), 5, false), Waiting::Answer(Ok(0)));
    assert_eq!(look(0, Some(9), 5, true), Waiting::Answer(Err(Errno::EINTR)));
    assert!(matches!(look(0, Some(9), 5, false), Waiting::Sleep { .. }));
    assert!(matches!(look(0, None, 5, false), Waiting::Sleep { .. }));
}

#[test]
fn what_is_ready_is_written_in_order() {
    let mut space = program();
    let ready = vec![Interest { events: 1, data: 7 }, Interest { events: 4, data: 8 }];
    assert_eq!(deliver(&mut space, PAGE, &ready, X86), Ok(2));
    let mut want = encode(1, 7, X86);
    want.extend(encode(4, 8, X86));
    assert_eq!(space.copy_from_user(PAGE, 24), Ok(want));
    assert_eq!(deliver(&mut space, 64, &ready, X86), Err(Errno::EFAULT));
    // What could be written counts.
    assert_eq!(deliver(&mut space, PAGE + 4096 - 12, &ready, X86), Ok(1));
}

#[test]
fn a_counter_is_made() {
    assert_eq!(
        sys_eventfd2(5, EFD_SEMAPHORE | EFD_NONBLOCK | EFD_CLOEXEC),
        Ok(Counter { initial: 5, semaphore: true, nonblock: true, cloexec: true })
    );
    assert_eq!(
        sys_eventfd(9),
        Ok(Counter { initial: 9, semaphore: false, nonblock: false, cloexec: false })
    );
    assert_eq!(sys_eventfd2(5, 2), Err(Errno::EINVAL));
}

#[test]
fn a_memory_file_is_named_and_sealed() {
    let mut space = program();
    assert_eq!(space.copy_to_user(PAGE, b"buffer\0"), Ok(()));
    let request = sys_memfd_create(&space, PAGE, MFD_CLOEXEC).unwrap();
    assert_eq!(request.name, b"buffer".to_vec());
    assert_eq!((request.seals, request.cloexec), (1, true));
    let sealable = sys_memfd_create(&space, PAGE, MFD_ALLOW_SEALING).unwrap();
    assert_eq!((sealable.seals, sealable.cloexec), (0, false));
    assert_eq!(sys_memfd_create(&space, PAGE, 0x80).err(), Some(Errno::EINVAL));
    assert_eq!(sys_memfd_create(&space, 64, 0).err(), Some(Errno::EFAULT));
    assert_eq!(shown_name(b"buffer"), b"memfd:buffer".to_vec());
    // A name has its limit.
    assert_eq!(space.copy_to_user(PAGE, &[b'a'; 300]), Ok(()));
    assert_eq!(sys_memfd_create(&space, PAGE, 0).err(), Some(Errno::EINVAL));
    assert_eq!(space.copy_to_user(PAGE + 249, b"\0"), Ok(()));
    assert_eq!(sys_memfd_create(&space, PAGE, 0).unwrap().name.len(), 249);
}

#[test]
fn a_name_is_shown_as_text() {
    let shown = |bytes: &[u8]| shown_name(bytes);
    assert_eq!(shown(b"\xFF"), b"memfd:\xEF\xBF\xBD".to_vec());
    assert_eq!(shown("b\u{FC}ffer".as_bytes()), "memfd:b\u{FC}ffer".as_bytes().to_vec());
    // Every mix of up to four bytes that each rule has a say on.
    let bytes = [
        0x00, 0x41, 0x7F, 0x80, 0x8F, 0x90, 0x9F, 0xA0, 0xBF, 0xC0, 0xC1, 0xC2, 0xDF, 0xE0, 0xE1,
        0xED, 0xEF, 0xF0, 0xF1, 0xF4, 0xF5, 0xFF,
    ];
    let mut texts: Vec<Vec<u8>> = vec![Vec::new()];
    for _ in 0..4 {
        let mut longer = Vec::new();
        for text in &texts {
            for byte in bytes {
                let mut more = text.clone();
                more.push(byte);
                assert_eq!(
                    shown(&more),
                    format!("memfd:{}", String::from_utf8_lossy(&more)).into_bytes()
                );
                longer.push(more);
            }
        }
        texts = longer;
    }
}
