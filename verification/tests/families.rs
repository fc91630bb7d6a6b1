//! Making processes and threads, waiting for them, and grouping them.

use syscall::abi::Arch;
use syscall::errno::Errno;
use syscall::family::{
    cgroup_target, clone3_request, clone_with, model, outcome, sys_clone, sys_getpgid, sys_getsid,
    sys_setpgid, sys_setsid, sys_wait4, sys_waitid, wait4_selector, write_id, Birth, Child,
    CloneCall, CloneRequest, End, Member, Model, Outcome, Pending, Select, Target, Waited, CLD_EXITED, CLD_KILLED,
    CLD_STOPPED, CLONE_CHILD_SETTID, CLONE_CLEAR_SIGHAND, CLONE_FILES, CLONE_FS,
    CLONE_INTO_CGROUP, CLONE_PARENT_SETTID, CLONE_PIDFD, CLONE_SETTLS, CLONE_SIGHAND,
    CLONE_THREAD, CLONE_VFORK, CLONE_VM, P_ALL, P_PGID, P_PID, SIGCHLD, WCONTINUED, WEXITED,
    WNOHANG, WNOWAIT, WUNTRACED,
};
use syscall::fd::{standard_streams, FileType, OpenFile};
use syscall::uaccess::{AddressSpace, Segment};

const PAGE: u64 = 0x10_0000;
const X86: Arch = Arch::X86_64;
const NEWPID: u64 = 0x2000_0000;

fn program() -> AddressSpace {
    AddressSpace {
        id: 1,
        user_end: 0x8000_0000,
        segments: vec![Segment {
            start: PAGE,
            bytes: vec![0; 4096],
            writable: true,
            shared: None,
        }],
    }
}

fn staged(args: &[u64]) -> AddressSpace {
    let mut space = program();
    for (i, value) in args.iter().enumerate() {
        assert!(space.put_number(PAGE + 8 * i as u64, *value, 8).is_ok());
    }
    space
}

fn request(flags: u64) -> CloneRequest {
    CloneRequest { flags, stack: 0, parent_tid: 0, child_tid: 0, tls: 0, cgroup: None }
}

#[test]
fn clone3_reads_what_its_caller_wrote() {
    // flags, pidfd, child_tid, parent_tid, exit_signal, stack, stack_size, tls
    let space = staged(&[CLONE_SETTLS, 0, 0x500, 0x600, 17, 0x40_0000, 0x1000, 0x700]);
    assert_eq!(
        clone3_request(&space, PAGE, 64),
        Ok(CloneRequest {
            flags: CLONE_SETTLS | 17,
            stack: 0x40_1000,
            parent_tid: 0x600,
            child_tid: 0x500,
            tls: 0x700,
            cgroup: None
        })
    );
    // A later caller's longer arguments are the same while the rest is zero.
    assert!(clone3_request(&space, PAGE, 128).is_ok());
}

#[test]
fn clone3_refuses_what_it_cannot_do() {
    let ask = |args: &[u64], size: u64| clone3_request(&staged(args), PAGE, size).err();
    assert_eq!(ask(&[0], 63), Some(Errno::EINVAL));
    assert_eq!(ask(&[0], 4097), Some(Errno::E2BIG));
    assert_eq!(clone3_request(&program(), 64, 64).err(), Some(Errno::EFAULT));
    // Something past what is known is set.
    assert_eq!(ask(&[0, 0, 0, 0, 0, 0, 0, 0, 0, 0, 0, 1], 96), Some(Errno::E2BIG));
    // An exit signal is not written in the flags, and is a signal.
    assert_eq!(ask(&[17], 64), Some(Errno::EINVAL));
    assert_eq!(ask(&[0, 0, 0, 0, 65], 64), Some(Errno::EINVAL));
    assert_eq!(
        ask(&[CLONE_SIGHAND | CLONE_CLEAR_SIGHAND | CLONE_VM], 64),
        Some(Errno::EINVAL)
    );
    assert_eq!(ask(&[CLONE_THREAD, 0, 0, 0, 17], 64), Some(Errno::EINVAL));
    assert_eq!(ask(&[1 << 40], 64), Some(Errno::EINVAL));
    // A stack needs both its address and its size, inside the user half.
    assert_eq!(ask(&[0, 0, 0, 0, 0, 0x1000, 0], 64), Some(Errno::EINVAL));
    assert_eq!(ask(&[0, 0, 0, 0, 0, 0, 0x1000], 64), Some(Errno::EINVAL));
    assert_eq!(ask(&[0, 0, 0, 0, 0, 0x7FFF_F000, 0x1001], 64), Some(Errno::EINVAL));
    assert_eq!(ask(&[0, 0, 0, 0, 0, 0x7FFF_F000, 0x1000], 64), None);
    // Chosen ids: told apart from nonsense, and not offered.
    assert_eq!(ask(&[0, 0, 0, 0, 0, 0, 0, 0, PAGE, 1], 80), Some(Errno::ENOSYS));
    assert_eq!(ask(&[0, 0, 0, 0, 0, 0, 0, 0, PAGE, 33], 80), Some(Errno::EINVAL));
    assert_eq!(ask(&[0, 0, 0, 0, 0, 0, 0, 0, 0, 1], 80), Some(Errno::EINVAL));
    assert_eq!(ask(&[CLONE_INTO_CGROUP], 80), Some(Errno::EINVAL));
    let space = staged(&[CLONE_INTO_CGROUP, 0, 0, 0, 0, 0, 0, 0, 0, 0, 9]);
    assert_eq!(clone3_request(&space, PAGE, 88).unwrap().cgroup, Some(9));
}

#[test]
fn each_call_asks_in_its_own_way() {
    let space = program();
    assert_eq!(
        sys_clone(&space, CloneCall::Fork, &[9; 6], X86),
        Ok(request(u64::from(SIGCHLD)))
    );
    assert_eq!(
        sys_clone(&space, CloneCall::Vfork, &[9; 6], X86),
        Ok(request(CLONE_VM | CLONE_VFORK | u64::from(SIGCHLD)))
    );
    let a = [CLONE_SETTLS | 17, 0x5000, 1, 2, 3, 0];
    let x86 = sys_clone(&space, CloneCall::Clone, &a, X86).unwrap();
    assert_eq!((x86.child_tid, x86.tls), (2, 3));
    let arm = sys_clone(&space, CloneCall::Clone, &a, Arch::Arm).unwrap();
    assert_eq!((arm.child_tid, arm.tls), (3, 2));
    // A thread pointer the machine could not load, and a stack out of reach.
    let far = [CLONE_SETTLS, 0x5000, 0, 0, 0x8000_0000, 0];
    assert_eq!(sys_clone(&space, CloneCall::Clone, &far, X86), Err(Errno::EPERM));
    let high = [17, 0x8000_0001, 0, 0, 0, 0];
    assert_eq!(sys_clone(&space, CloneCall::Clone, &high, X86), Err(Errno::EINVAL));
    let edge = [17, 0x8000_0000, 0, 0, 0, 0];
    assert!(sys_clone(&space, CloneCall::Clone, &edge, X86).is_ok());
}

const THREAD: u64 = CLONE_VM | CLONE_FS | CLONE_FILES | CLONE_SIGHAND | CLONE_THREAD;

#[test]
fn a_thread_shares_everything_or_is_refused() {
    let plan = clone_with(&request(THREAD), Target::Same).unwrap();
    assert!(plan.thread && plan.share_files && plan.share_fs);
    assert_eq!(plan.exit_signal, 0);
    for (flags, error) in [
        (THREAD & !CLONE_SIGHAND, Errno::EINVAL),
        (THREAD & !CLONE_VM, Errno::EINVAL),
        (THREAD & !CLONE_FILES, Errno::ENOSYS),
        (THREAD & !CLONE_FS, Errno::ENOSYS),
        (THREAD | CLONE_VFORK, Errno::ENOSYS),
        (THREAD | CLONE_PIDFD, Errno::ENOSYS),
        (THREAD | NEWPID, Errno::EINVAL),
    ] {
        assert_eq!(clone_with(&request(flags), Target::Same), Err(error));
    }
}

#[test]
fn a_process_shares_memory_only_while_its_parent_waits() {
    let fork = clone_with(&request(17), Target::Same).unwrap();
    assert!(!fork.thread && !fork.vfork && !fork.share_files);
    assert_eq!(fork.exit_signal, 17);
    assert!(clone_with(&request(CLONE_VM | CLONE_VFORK | 17), Target::Same).unwrap().vfork);
    assert_eq!(clone_with(&request(CLONE_VM | 17), Target::Same), Err(Errno::ENOSYS));
    assert_eq!(
        clone_with(&request(CLONE_VM | CLONE_SIGHAND | CLONE_VFORK), Target::Same),
        Err(Errno::ENOSYS)
    );
    assert_eq!(clone_with(&request(CLONE_PIDFD), Target::Same), Err(Errno::ENOSYS));
    assert_eq!(clone_with(&request(NEWPID | 17), Target::Same), Err(Errno::EINVAL));
    let into = CloneRequest { cgroup: Some(3), ..request(17) };
    assert!(clone_with(&into, Target::Other).unwrap().into);
    assert_eq!(
        clone_with(&into, Target::Refused(Errno::EBADF)),
        Err(Errno::EBADF)
    );
    let thread_into = CloneRequest { cgroup: Some(3), ..request(THREAD) };
    assert_eq!(clone_with(&thread_into, Target::Other), Err(Errno::EOPNOTSUPP));
    assert!(clone_with(&thread_into, Target::Same).is_ok());
}

#[test]
fn ids_are_written_where_asked() {
    let asked = CloneRequest {
        flags: CLONE_PARENT_SETTID | CLONE_CHILD_SETTID | 17,
        parent_tid: PAGE,
        child_tid: 64,
        ..request(0)
    };
    let plan = clone_with(&asked, Target::Same).unwrap();
    assert_eq!((plan.parent_tid, plan.child_tid, plan.clear_tid), (Some(PAGE), Some(64), None));
    let mut space = program();
    write_id(&mut space, plan.parent_tid, 42);
    assert_eq!(space.get_u32(PAGE), Ok(42));
    // An address nobody mapped is let be.
    write_id(&mut space, plan.child_tid, 42);
    write_id(&mut space, None, 43);
    assert_eq!(space.get_u32(PAGE), Ok(42));
}

#[test]
fn what_could_not_be_born_is_answered_for() {
    let plan = clone_with(&request(17), Target::Same).unwrap();
    let made = |dying: bool, removed: bool, started: bool| Birth::Made {
        id: 9,
        dying,
        removed,
        started,
    };
    let refused = |errno: Errno, kill: bool| Outcome {
        answer: Err(errno),
        kill,
        disown: false,
        ids: false,
        waits: false,
    };
    let unstarted = |disown: bool| Outcome {
        answer: Err(Errno::EAGAIN),
        kill: false,
        disown,
        ids: true,
        waits: false,
    };
    // Only a thread is refused for a caller that is none of the process's.
    assert_eq!(model(&plan, false), Ok(Model::Nobody));
    assert_eq!(model(&plan, true), Ok(Model::Caller));
    assert_eq!(outcome(&plan, Birth::NoMemory), refused(Errno::ENOMEM, false));
    assert_eq!(outcome(&plan, Birth::NoId), refused(Errno::EAGAIN, false));
    assert_eq!(outcome(&plan, made(true, false, true)), refused(Errno::EAGAIN, true));
    assert_eq!(outcome(&plan, made(false, false, false)), unstarted(true));
    assert_eq!(
        outcome(&plan, made(false, true, true)),
        Outcome { answer: Ok(9), kill: false, disown: false, ids: true, waits: false }
    );
    let vfork = clone_with(&request(CLONE_VM | CLONE_VFORK | 17), Target::Same).unwrap();
    assert!(outcome(&vfork, made(false, false, true)).waits);
    let into =
        clone_with(&CloneRequest { cgroup: Some(3), ..request(17) }, Target::Other).unwrap();
    assert_eq!(outcome(&into, made(false, true, true)), refused(Errno::ENODEV, true));
    let thread = clone_with(&request(THREAD), Target::Same).unwrap();
    assert_eq!(model(&thread, false), Err(Errno::ESRCH));
    assert_eq!(model(&thread, true), Ok(Model::Mask));
    assert_eq!(
        outcome(&thread, made(true, false, false)),
        unstarted(false)
    );
}

fn child(pid: u32, pgid: u32) -> Child {
    Child { pid, pgid, end: None, pending: Pending::Nothing }
}

fn exited(pid: u32, code: i32) -> Child {
    Child {
        end: Some(End { wait_status: code << 8, exit_status: code, signal: None }),
        ..child(pid, 7)
    }
}

fn wait4(
    space: &mut AddressSpace,
    children: &mut Vec<Child>,
    pid: i32,
    options: u32,
) -> Result<Waited, Errno> {
    sys_wait4(space, children, 7, pid, PAGE, options, 0, false, X86)
}

#[test]
fn check_a_forked_child_is_waited_for() {
    let mut space = program();
    let mut children = vec![child(8, 7)];
    assert_eq!(wait4(&mut space, &mut children, -1, 0), Ok(Waited::Sleep));
    children[0] = exited(8, 23);
    assert_eq!(wait4(&mut space, &mut children, -1, 0), Ok(Waited::Answer(8)));
    assert_eq!(space.get_u32(PAGE), Ok(23 << 8));
    // It is waited for once.
    assert_eq!(wait4(&mut space, &mut children, -1, 0), Err(Errno::ECHILD));
}

#[test]
fn a_wait_names_its_children() {
    assert_eq!(wait4_selector(7, -1), Select::Any);
    assert_eq!(wait4_selector(7, 0), Select::Group(7));
    assert_eq!(wait4_selector(7, 5), Select::Pid(5));
    assert_eq!(wait4_selector(7, -5), Select::Group(5));
    assert_eq!(wait4_selector(7, i32::MIN), Select::Group(0x8000_0000));
    let mut space = program();
    let mut children = vec![exited(8, 1), exited(9, 2)];
    assert_eq!(wait4(&mut space, &mut children, 10, 0), Err(Errno::ECHILD));
    assert_eq!(wait4(&mut space, &mut children, -3, 0), Err(Errno::ECHILD));
    assert_eq!(wait4(&mut space, &mut children, 9, 0), Ok(Waited::Answer(9)));
    assert_eq!(wait4(&mut space, &mut children, 0, 0), Ok(Waited::Answer(8)));
}

#[test]
fn a_wait_that_does_not_wait_answers_zero() {
    let mut space = program();
    let mut children = vec![child(8, 7)];
    assert_eq!(wait4(&mut space, &mut children, -1, WNOHANG), Ok(Waited::Answer(0)));
    assert_eq!(wait4(&mut space, &mut children, -1, 0x100), Err(Errno::EINVAL));
    assert_eq!(
        sys_wait4(&mut space, &mut children, 7, -1, 0, 0, 0, true, X86),
        Err(Errno::ERESTARTSYS)
    );
}

#[test]
fn stops_and_continues_are_reported_to_who_asks() {
    let mut space = program();
    let mut children = vec![Child { pending: Pending::Stopped(19), ..child(8, 7) }];
    assert_eq!(wait4(&mut space, &mut children, -1, WNOHANG), Ok(Waited::Answer(0)));
    assert_eq!(
        wait4(&mut space, &mut children, -1, WNOHANG | WUNTRACED),
        Ok(Waited::Answer(8))
    );
    assert_eq!(space.get_u32(PAGE), Ok(0x137F));
    assert_eq!(
        wait4(&mut space, &mut children, -1, WNOHANG | WUNTRACED),
        Ok(Waited::Answer(0))
    );
    children[0].pending = Pending::Continued;
    assert_eq!(
        wait4(&mut space, &mut children, -1, WNOHANG | WCONTINUED),
        Ok(Waited::Answer(8))
    );
    assert_eq!(space.get_u32(PAGE), Ok(0xFFFF));
    assert_eq!(children.len(), 1);
}

fn waitid(
    space: &mut AddressSpace,
    children: &mut Vec<Child>,
    kind: u32,
    id: u32,
    options: u32,
    arch: Arch,
) -> Result<Waited, Errno> {
    sys_waitid(space, children, kind, id, PAGE, options, 0, false, arch)
}

#[test]
fn waitid_fills_its_information() {
    let mut space = program();
    let mut children = vec![exited(8, 0x123)];
    assert_eq!(
        waitid(&mut space, &mut children, P_ALL, 0, WEXITED | WNOWAIT, X86),
        Ok(Waited::Answer(0))
    );
    assert_eq!(children.len(), 1);
    for (at, value) in [(0, SIGCHLD), (8, CLD_EXITED as u32), (16, 8), (24, 0x23)] {
        assert_eq!(space.get_u32(PAGE + at), Ok(value));
    }
    children[0].end = Some(End { wait_status: 9, exit_status: 137, signal: Some(9) });
    assert_eq!(
        waitid(&mut space, &mut children, P_PID, 8, WEXITED, Arch::Arm),
        Ok(Waited::Answer(0))
    );
    for (at, value) in [(8, CLD_KILLED as u32), (12, 8), (20, 9)] {
        assert_eq!(space.get_u32(PAGE + at), Ok(value));
    }
    assert!(children.is_empty());
}

#[test]
fn waitid_refuses_what_it_does_not_know() {
    let mut space = program();
    let mut children = vec![Child { pending: Pending::Stopped(20), ..child(8, 7) }];
    assert_eq!(
        waitid(&mut space, &mut children, 9, 0, WEXITED, X86),
        Err(Errno::EINVAL)
    );
    assert_eq!(waitid(&mut space, &mut children, P_ALL, 0, 0, X86), Err(Errno::EINVAL));
    assert_eq!(
        waitid(&mut space, &mut children, P_PGID, 6, WEXITED, X86),
        Err(Errno::ECHILD)
    );
    assert_eq!(
        waitid(&mut space, &mut children, P_ALL, 0, WEXITED | WNOHANG, X86),
        Ok(Waited::Answer(0))
    );
    assert_eq!(space.copy_from_user(PAGE, 128), Ok(vec![0; 128]));
    assert_eq!(
        waitid(&mut space, &mut children, P_PGID, 7, WUNTRACED, X86),
        Ok(Waited::Answer(0))
    );
    assert_eq!(space.get_u32(PAGE + 8), Ok(CLD_STOPPED as u32));
    assert_eq!(space.get_u32(PAGE + 24), Ok(20));
}

#[test]
fn a_report_nobody_can_read_is_a_fault() {
    let mut space = program();
    let mut children = vec![exited(8, 1)];
    assert_eq!(
        sys_wait4(&mut space, &mut children, 7, -1, 64, 0, 0, false, X86),
        Err(Errno::EFAULT)
    );
    let mut others = vec![exited(8, 1)];
    assert_eq!(
        sys_wait4(&mut space, &mut others, 7, -1, PAGE, 0, PAGE + 64, false, X86),
        Ok(Waited::Answer(8))
    );
    assert_eq!(space.copy_from_user(PAGE + 64, 144), Ok(vec![0; 144]));
}

fn member(pid: u32, parent: u32, pgid: u32, sid: u32) -> Member {
    Member { pid, parent, pgid, sid }
}

fn members() -> Vec<Member> {
    vec![
        member(5, 1, 5, 5),
        member(6, 5, 6, 5),
        member(7, 6, 7, 5),
        member(8, 6, 6, 5),
        member(9, 6, 9, 9),
    ]
}

#[test]
fn groups_are_joined_and_left() {
    let mut all = members();
    assert_eq!(sys_setpgid(&mut all, 1, 8, 0), Ok(0));
    assert_eq!(all[3].pgid, 8);
    assert_eq!(sys_setpgid(&mut all, 1, 8, 7), Ok(0));
    assert_eq!(all[3].pgid, 7);
    assert_eq!(sys_setpgid(&mut all, 1, 0, 7), Ok(0));
    assert_eq!(all[1].pgid, 7);
    assert_eq!(sys_setpgid(&mut all, 1, 8, 99), Err(Errno::EPERM));
    assert_eq!(sys_setpgid(&mut all, 1, 8, -1), Err(Errno::EINVAL));
    assert_eq!(sys_setpgid(&mut all, 1, 5, 0), Err(Errno::ESRCH));
    assert_eq!(sys_setpgid(&mut all, 1, -8, 0), Err(Errno::ESRCH));
    // A session's leader stays where it is, and so does another session.
    assert_eq!(sys_setpgid(&mut all, 0, 0, 7), Err(Errno::EPERM));
    assert_eq!(sys_setpgid(&mut all, 1, 9, 7), Err(Errno::EPERM));
}

#[test]
fn groups_and_sessions_are_told() {
    let all = members();
    assert_eq!(sys_getpgid(&all, 3, 0), Ok(6));
    assert_eq!(sys_getpgid(&all, 0, 9), Ok(9));
    assert_eq!(sys_getpgid(&all, 0, 99), Err(Errno::ESRCH));
    assert_eq!(sys_getpgid(&all, 0, -1), Err(Errno::ESRCH));
    assert_eq!(sys_getsid(&all, 3, 0), Ok(5));
    assert_eq!(sys_getsid(&all, 3, 9), Ok(9));
    assert_eq!(sys_getsid(&all, 3, -9), Err(Errno::ESRCH));
}

#[test]
fn a_new_session_has_its_maker_at_its_head() {
    let mut all = members();
    assert_eq!(sys_setsid(&mut all, 3), Ok(8));
    assert_eq!(all[3], member(8, 6, 8, 8));
    // One that leads a group cannot leave it behind.
    assert_eq!(sys_setsid(&mut all, 2), Err(Errno::EPERM));
    assert_eq!(sys_setsid(&mut all, 3), Err(Errno::EPERM));
}

#[test]
fn a_cgroup_is_named_by_a_descriptor() {
    let mut table = standard_streams(0);
    assert_eq!(table.insert(0, false), Ok(3));
    let open = vec![OpenFile {
        kind: FileType::Directory,
        path_only: false,
        readable: true,
        writable: false,
        append: false,
        nonblock: false,
        filesystem: 1,
        ino: 42,
        pollable: false,
        epoll_set: false,
        console: false,
        mappable: false,
        seals: 0,
    }];
    assert_eq!(cgroup_target(&table, &open, 3, Ok(true)), Target::Same);
    assert_eq!(cgroup_target(&table, &open, 3, Ok(false)), Target::Other);
    assert_eq!(
        cgroup_target(&table, &open, 3, Err(Errno::EBUSY)),
        Target::Refused(Errno::EBUSY)
    );
    assert_eq!(
        cgroup_target(&table, &open, 9, Ok(true)),
        Target::Refused(Errno::EBADF)
    );
}
