//! Who a process is, and what that allows it.

use syscall::credentials::{
    data_count, dispatch, identity, may_signal_ids, require_privilege, same_ids, same_owner,
    set_filesystem_id, sys_capget, sys_capset, sys_getgroups, sys_setgroups, Credentials, Ids,
    Kind, CAPABILITY_VERSION_1, CAPABILITY_VERSION_2, CAPABILITY_VERSION_3, NGROUPS_MAX,
    UNCHANGED,
};
use syscall::errno::Errno;
use syscall::nr::Syscall;
use syscall::process::Process;
use syscall::uaccess::{AddressSpace, Segment};

const PAGE: u64 = 0x10_0000;
const UNWRITTEN: u8 = 0xA5;

fn program() -> AddressSpace {
    AddressSpace {
        id: 1,
        user_end: 0x8000_0000,
        segments: vec![Segment {
            start: PAGE,
            bytes: vec![UNWRITTEN; 4096],
            writable: true,
            shared: None,
        }],
    }
}

fn root() -> Process {
    Process {
        pid: 7,
        threads: Vec::new(),
        started: 1,
        pgid: 7,
        comm: b"init".to_vec(),
        credentials: Credentials::root(),
    }
}

fn all(id: u32) -> Ids {
    Ids { real: id, effective: id, saved: id, filesystem: id }
}

fn user(id: u32) -> Credentials {
    Credentials { user: all(id), group: all(id), groups: vec![id] }
}

fn call(
    space: &mut AddressSpace,
    process: &mut Process,
    call: Syscall,
    args: [u64; 3],
) -> Option<Result<usize, Errno>> {
    dispatch(call, &[args[0], args[1], args[2], 0, 0, 0], space, process, &Vec::new())
}

const KEEP: u64 = UNCHANGED as u64;

#[test]
fn check_credentials_follow_linux_rules() {
    let mut space = program();
    let mut process = root();
    assert_eq!(
        call(&mut space, &mut process, Syscall::Setuid, [KEEP, 0, 0]),
        Some(Err(Errno::EINVAL))
    );
    assert_eq!(
        call(&mut space, &mut process, Syscall::Getresuid, [PAGE, PAGE + 4, PAGE + 8]),
        Some(Ok(0))
    );
    let out = space.copy_from_user(PAGE, 16).unwrap();
    assert_eq!(out[..12], [0; 12]);
    assert_eq!(out[12..], [UNWRITTEN; 4]);
    assert_eq!(sys_getgroups(&mut space, &process.credentials, 0, 0), Ok(1));
    assert_eq!(sys_getgroups(&mut space, &process.credentials, 4, PAGE + 64), Ok(1));
    assert_eq!(
        space.copy_from_user(PAGE + 64, 8),
        Ok(vec![0, 0, 0, 0, UNWRITTEN, UNWRITTEN, UNWRITTEN, UNWRITTEN])
    );
}

fn dropped(space: &mut AddressSpace) -> Process {
    let mut process = root();
    assert!(space.put_u32(PAGE, 1000).is_ok());
    assert_eq!(call(space, &mut process, Syscall::Setgroups, [1, PAGE, 0]), Some(Ok(0)));
    assert_eq!(call(space, &mut process, Syscall::Setgid, [1000, 0, 0]), Some(Ok(0)));
    assert_eq!(call(space, &mut process, Syscall::Setuid, [1000, 0, 0]), Some(Ok(0)));
    process
}

#[test]
fn check_a_process_that_drops_root() {
    let mut space = program();
    let mut process = root();
    assert_eq!(
        call(&mut space, &mut process, Syscall::Setresuid, [KEEP, 1000, KEEP]),
        Some(Ok(0))
    );
    assert_eq!(identity(Syscall::Getuid, &process.credentials), Some(0));
    assert_eq!(identity(Syscall::Geteuid, &process.credentials), Some(1000));
    assert!(space.put_u32(PAGE, 1000).is_ok());
    assert_eq!(
        call(&mut space, &mut process, Syscall::Setgroups, [1, PAGE, 0]),
        Some(Err(Errno::EPERM))
    );
    // Zero is still one of its own.
    assert_eq!(call(&mut space, &mut process, Syscall::Setuid, [0, 0, 0]), Some(Ok(0)));

    let dropped = dropped(&mut space);
    for call in [Syscall::Getuid, Syscall::Geteuid, Syscall::Getgid, Syscall::Getegid] {
        assert_eq!(identity(call, &dropped.credentials), Some(1000));
    }
    assert_eq!(identity(Syscall::Setuid, &dropped.credentials), None);
}

#[test]
fn check_uid_1000_cannot_take_root_back() {
    let mut space = program();
    let mut process = dropped(&mut space);
    for (name, args) in [
        (Syscall::Setuid, [0, 0, 0]),
        (Syscall::Setresuid, [KEEP, 0, KEEP]),
        (Syscall::Setreuid, [0, KEEP, 0]),
        (Syscall::Setgid, [0, 0, 0]),
    ] {
        assert_eq!(call(&mut space, &mut process, name, args), Some(Err(Errno::EPERM)));
    }
    assert!(space.put_u32(PAGE, 0).is_ok());
    assert_eq!(
        call(&mut space, &mut process, Syscall::Setgroups, [1, PAGE, 0]),
        Some(Err(Errno::EPERM))
    );
    assert_eq!(call(&mut space, &mut process, Syscall::Setuid, [1000, 0, 0]), Some(Ok(0)));
    for _ in 0..2 {
        assert_eq!(
            call(&mut space, &mut process, Syscall::Setfsuid, [0, 0, 0]),
            Some(Ok(1000))
        );
    }
}

#[test]
fn check_what_uid_1000_is_told() {
    let mut space = program();
    let mut process = dropped(&mut space);
    let at = PAGE + 64;
    assert_eq!(
        call(&mut space, &mut process, Syscall::Getresuid, [at, at + 4, at + 8]),
        Some(Ok(0))
    );
    let ids = space.copy_from_user(at, 16).unwrap();
    assert_eq!(ids[..12], [0xE8, 3, 0, 0, 0xE8, 3, 0, 0, 0xE8, 3, 0, 0]);
    assert_eq!(ids[12..], [UNWRITTEN; 4]);
    let at = PAGE + 128;
    assert_eq!(sys_getgroups(&mut space, &process.credentials, 4, at), Ok(1));
    assert_eq!(
        space.copy_from_user(at, 8),
        Ok(vec![0xE8, 3, 0, 0, UNWRITTEN, UNWRITTEN, UNWRITTEN, UNWRITTEN])
    );
    let at = PAGE + 256;
    assert!(space.put_u32(at, CAPABILITY_VERSION_3).is_ok());
    assert!(space.put_u32(at + 4, 0).is_ok());
    assert_eq!(
        call(&mut space, &mut process, Syscall::Capget, [at, at + 8, 0]),
        Some(Ok(0))
    );
    assert_eq!(space.copy_from_user(at + 8, 24), Ok(vec![0; 24]));
}

#[test]
fn root_has_every_capability() {
    let mut space = program();
    let process = root();
    assert!(space.put_u32(PAGE, CAPABILITY_VERSION_3).is_ok());
    assert!(space.put_u32(PAGE + 4, 0).is_ok());
    assert_eq!(sys_capget(&mut space, &process, &Vec::new(), PAGE, PAGE + 8), Ok(0));
    for (at, want) in [
        (8, 0xFFFF_FFFF),
        (12, 0xFFFF_FFFF),
        (16, 0),
        (20, 0x1FF),
        (24, 0x1FF),
        (28, 0),
    ] {
        assert_eq!(space.get_u32(PAGE + at), Ok(want));
    }
    // The first version has one record.
    assert_eq!(data_count(CAPABILITY_VERSION_1), Some(1));
    assert_eq!(data_count(CAPABILITY_VERSION_2), Some(2));
    assert_eq!(data_count(7), None);
}

#[test]
fn a_capability_call_refuses_what_it_does_not_know() {
    let mut space = program();
    let process = root();
    assert!(space.put_u32(PAGE, 7).is_ok());
    assert!(space.put_u32(PAGE + 4, 0).is_ok());
    assert_eq!(
        sys_capget(&mut space, &process, &Vec::new(), PAGE, PAGE + 8),
        Err(Errno::EINVAL)
    );
    // The version the caller should have asked for is put in its place.
    assert_eq!(space.get_u32(PAGE), Ok(CAPABILITY_VERSION_3));
    assert!(space.put_u32(PAGE + 4, 99).is_ok());
    assert_eq!(
        sys_capget(&mut space, &process, &Vec::new(), PAGE, PAGE + 8),
        Err(Errno::ESRCH)
    );
    assert_eq!(sys_capset(&mut space, &process, PAGE, PAGE + 8), Err(Errno::EPERM));
    assert_eq!(
        sys_capget(&mut space, &process, &Vec::new(), 64, PAGE + 8),
        Err(Errno::EFAULT)
    );
}

#[test]
fn capabilities_can_be_set_to_what_they_are() {
    let mut space = program();
    let process = root();
    assert!(space.put_u32(PAGE, CAPABILITY_VERSION_3).is_ok());
    assert!(space.put_u32(PAGE + 4, 0).is_ok());
    assert_eq!(sys_capget(&mut space, &process, &Vec::new(), PAGE, PAGE + 8), Ok(0));
    assert_eq!(sys_capset(&mut space, &process, PAGE, PAGE + 8), Ok(0));
    let user = Process { credentials: user(1000), ..root() };
    assert_eq!(sys_capset(&mut space, &user, PAGE, PAGE + 8), Err(Errno::EPERM));
}

#[test]
fn the_rules_for_one_id_for_two_and_for_three() {
    let mut space = program();
    let mut process = Process {
        credentials: Credentials {
            user: Ids { real: 1000, effective: 1000, saved: 2000, filesystem: 1000 },
            group: all(1000),
            groups: Vec::new(),
        },
        ..root()
    };
    // One of its own becomes the effective id; the real one stays.
    assert_eq!(call(&mut space, &mut process, Syscall::Setuid, [2000, 0, 0]), Some(Ok(0)));
    assert_eq!(
        process.credentials.user,
        Ids { real: 1000, effective: 2000, saved: 2000, filesystem: 2000 }
    );
    assert_eq!(
        call(&mut space, &mut process, Syscall::Setreuid, [KEEP, 1000, 0]),
        Some(Ok(0))
    );
    assert_eq!(process.credentials.user.effective, 1000);
    assert_eq!(
        call(&mut space, &mut process, Syscall::Setresuid, [2000, 2000, 1000]),
        Some(Ok(0))
    );
    assert_eq!(
        process.credentials.user,
        Ids { real: 2000, effective: 2000, saved: 1000, filesystem: 2000 }
    );
    assert_eq!(
        call(&mut space, &mut process, Syscall::Setresuid, [5, KEEP, KEEP]),
        Some(Err(Errno::EPERM))
    );
    // What was refused changed nothing, and neither did any of it to a group.
    assert_eq!(
        process.credentials.user,
        Ids { real: 2000, effective: 2000, saved: 1000, filesystem: 2000 }
    );
    assert_eq!(process.credentials.group, all(1000));
    assert_eq!(
        call(&mut space, &mut process, Syscall::Setresgid, [1000, KEEP, KEEP]),
        Some(Ok(0))
    );
    assert_eq!(
        call(&mut space, &mut process, Syscall::Setregid, [KEEP, 0, 0]),
        Some(Err(Errno::EPERM))
    );
    assert_eq!(
        call(&mut space, &mut process, Syscall::Setfsgid, [KEEP, 0, 0]),
        Some(Ok(1000))
    );
    assert_eq!(call(&mut space, &mut process, Syscall::Write, [0, 0, 0]), None);
}

#[test]
fn a_filesystem_id_moves_only_to_one_of_its_own() {
    let mut who = Credentials {
        user: Ids { real: 1, effective: 2, saved: 3, filesystem: 2 },
        group: all(9),
        groups: Vec::new(),
    };
    assert_eq!(set_filesystem_id(&mut who, Kind::User, 3), 2);
    assert_eq!(who.user.filesystem, 3);
    assert_eq!(set_filesystem_id(&mut who, Kind::User, 77), 3);
    assert_eq!(who.user.filesystem, 3);
    let mut root = Credentials::root();
    assert_eq!(set_filesystem_id(&mut root, Kind::Group, 77), 0);
    assert_eq!(root.group.filesystem, 77);
}

#[test]
fn who_may_reach_whom() {
    assert_eq!(require_privilege(&Credentials::root()), Ok(()));
    assert_eq!(require_privilege(&user(1000)), Err(Errno::EPERM));
    assert!(same_owner(&user(1000), &user(1000)));
    assert!(!same_owner(&user(1000), &user(1001)));
    assert!(may_signal_ids(&Credentials::root(), &user(5)));
    assert!(!may_signal_ids(&user(5), &Credentials::root()));
    // A program that runs as another can still be told by who started it.
    let raised = Credentials {
        user: Ids { real: 5, effective: 0, saved: 0, filesystem: 0 },
        ..user(5)
    };
    assert!(may_signal_ids(&user(5), &raised));
    assert!(same_ids(&user(5), &user(5)));
    assert!(!same_ids(&user(5), &raised));
}

#[test]
fn a_group_list_is_bounded_and_read_whole() {
    let mut space = program();
    let mut who = Credentials::root();
    for (i, group) in [30_u32, 10, 20].iter().enumerate() {
        assert!(space.put_u32(PAGE + 4 * i as u64, *group).is_ok());
    }
    assert_eq!(sys_setgroups(&space, &mut who, 3, PAGE), Ok(0));
    assert_eq!(who.groups, vec![10, 20, 30]);
    assert_eq!(sys_getgroups(&mut space, &who, 2, PAGE), Err(Errno::EINVAL));
    assert_eq!(sys_getgroups(&mut space, &who, -1, PAGE), Err(Errno::EINVAL));
    assert_eq!(sys_getgroups(&mut space, &who, 3, 64), Err(Errno::EFAULT));
    assert_eq!(
        sys_setgroups(&space, &mut who, NGROUPS_MAX + 1, PAGE),
        Err(Errno::EINVAL)
    );
    assert_eq!(sys_setgroups(&space, &mut who, 2, 64), Err(Errno::EFAULT));
    // What was refused changed nothing.
    assert_eq!(who.groups, vec![10, 20, 30]);
}

#[test]
fn an_executed_program_can_be_raised_and_never_keeps_an_old_saved_id() {
    let mut who = Credentials {
        user: Ids { real: 5, effective: 6, saved: 0, filesystem: 6 },
        group: all(5),
        groups: vec![5],
    };
    assert!(who.exec(None, None));
    assert_eq!(who.user, Ids { real: 5, effective: 6, saved: 6, filesystem: 6 });
    let mut plain = user(5);
    assert!(!plain.exec(None, None));
    assert!(plain.exec(Some(0), None));
    assert_eq!(plain.user, Ids { real: 5, effective: 0, saved: 0, filesystem: 0 });
    assert!(plain.privileged());
    let mut grouped = user(5);
    assert!(grouped.exec(None, Some(42)));
    assert_eq!(grouped.group, Ids { real: 5, effective: 42, saved: 42, filesystem: 42 });
    assert_eq!(grouped.user, all(5));
}

#[test]
fn check_identity_answers() {
    let root = Credentials::root();
    for call in [Syscall::Getuid, Syscall::Geteuid, Syscall::Getgid, Syscall::Getegid] {
        assert_eq!(identity(call, &root), Some(0));
    }
}
