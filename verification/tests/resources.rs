//! What a process keeps across calls, and the limits it runs under.

use syscall::abi::{Arch, TimeWidth};
use syscall::attributes::{
    get, name_of, sys_get_robust_list, sys_getpriority, sys_ioprio_get, sys_ioprio_set,
    sys_personality, sys_prctl, sys_set_robust_list, sys_setpriority, update, Attributes, Table,
    PRIO_PGRP, PRIO_PROCESS, PRIO_USER, PR_CAPBSET_READ, PR_GET_DUMPABLE, PR_GET_NAME,
    PR_GET_NO_NEW_PRIVS, PR_GET_PDEATHSIG, PR_SET_DUMPABLE, PR_SET_NAME, PR_SET_NO_NEW_PRIVS,
    PR_SET_PDEATHSIG,
};
use syscall::credentials::Credentials;
use syscall::deliver::StackRecord;
use syscall::errno::Errno;
use syscall::exec::{reset, ThreadMemory};
use syscall::fd::{standard_streams, FdTable, MAX_LIMIT};
use syscall::limits::{
    from_word, mask_bytes, online_cpus, priority_range, sys_getrlimit, sys_prlimit64,
    sys_sched_getaffinity, sys_sched_getparam, sys_sched_getscheduler, sys_sched_rr_get_interval,
    sys_sched_setaffinity, sys_sched_setparam, sys_sched_setscheduler, sys_setrlimit, to_word, Cpu,
    Machine,
};
use syscall::nr::Syscall;
use syscall::process::Process;
use syscall::uaccess::{AddressSpace, Segment};

const PAGE: u64 = 0x10_0000;
const UNWRITTEN: u8 = 0xA5;
const STACK: u32 = 3;
const CORE: u32 = 4;
const NOFILE: u32 = 7;
const X86: Arch = Arch::X86_64;

fn program() -> AddressSpace {
    AddressSpace {
        id: 1,
        user_end: 0x8000_0000,
        segments: vec![Segment {
            start: PAGE,
            bytes: vec![UNWRITTEN; 4096],
            writable: true,
            shared: None,
        }],
    }
}

fn process(pid: u32, group: u32) -> Process {
    Process {
        pid,
        started: u64::from(pid) * 10,
        pgid: group,
        comm: b"sh".to_vec(),
        threads: Vec::new(),
        credentials: Credentials::root(),
    }
}

fn stage_rlimit64(space: &mut AddressSpace, at: u64, soft: u64, hard: u64) {
    assert!(space.put_number(at, soft, 8).is_ok());
    assert!(space.put_number(at + 8, hard, 8).is_ok());
}

struct World {
    space: AddressSpace,
    table: Table,
    live: Vec<Process>,
    me: Process,
    files: FdTable,
    theirs: Vec<FdTable>,
}

fn world() -> World {
    World {
        space: program(),
        table: Table::new(),
        live: vec![process(7, 7), process(8, 7)],
        me: process(7, 7),
        files: standard_streams(0),
        theirs: vec![standard_streams(0), standard_streams(0)],
    }
}

impl World {
    fn prlimit64(&mut self, pid: i32, resource: u32, new: u64, old: u64) -> Result<usize, Errno> {
        sys_prlimit64(
            &mut self.table,
            &mut self.space,
            &self.live,
            &self.me,
            &mut self.files,
            &mut self.theirs,
            pid,
            resource,
            new,
            old,
        )
    }

    fn getrlimit(&mut self, resource: u32, at: u64, arch: Arch) -> Result<usize, Errno> {
        sys_getrlimit(&self.table, &mut self.space, &self.me, &self.files, resource, at, arch)
    }

    fn setrlimit(&mut self, resource: u32, at: u64, arch: Arch) -> Result<usize, Errno> {
        sys_setrlimit(
            &mut self.table,
            &self.space,
            &self.live,
            &self.me,
            &mut self.files,
            resource,
            at,
            arch,
        )
    }

    fn prctl(&mut self, option: i32, a: [u64; 4]) -> Result<usize, Errno> {
        sys_prctl(&mut self.table, &mut self.space, &self.live, &self.me, option, a, X86)
    }
}

#[test]
fn check_limits_read_back_and_reach_the_descriptor_table() {
    let mut w = world();
    let limit = u64::from(w.files.limit);
    assert_eq!(w.getrlimit(NOFILE, PAGE, X86), Ok(0));
    assert_eq!(w.space.get_number(PAGE, 8), Ok(limit));
    assert!(w.space.get_number(PAGE + 8, 8).unwrap() >= limit);
    assert_eq!(w.space.copy_from_user(PAGE + 16, 8), Ok(vec![UNWRITTEN; 8]));

    stage_rlimit64(&mut w.space, PAGE, 64, 128);
    assert_eq!(w.setrlimit(NOFILE, PAGE, X86), Ok(0));
    assert_eq!(w.files.limit, 64);

    stage_rlimit64(&mut w.space, PAGE, 1024, 4096);
    assert_eq!(w.prlimit64(7, NOFILE, PAGE, PAGE + 64), Ok(0));
    assert_eq!(w.space.get_number(PAGE + 64, 8), Ok(64));
    assert_eq!(w.space.get_number(PAGE + 72, 8), Ok(128));
    assert_eq!(w.space.copy_from_user(PAGE + 80, 8), Ok(vec![UNWRITTEN; 8]));
    assert_eq!(w.files.limit, 1024);
}

#[test]
fn check_limits_are_refused_as_linux_refuses_them() {
    let mut w = world();
    stage_rlimit64(&mut w.space, PAGE, 10, 5);
    assert_eq!(w.prlimit64(0, NOFILE, PAGE, 0), Err(Errno::EINVAL));
    stage_rlimit64(&mut w.space, PAGE, 1024, u64::from(MAX_LIMIT) + 1);
    assert_eq!(w.prlimit64(0, NOFILE, PAGE, 0), Err(Errno::EPERM));
    assert_eq!(w.getrlimit(16, PAGE, X86), Err(Errno::EINVAL));
    assert_eq!(w.prlimit64(32_768, NOFILE, 0, 0), Err(Errno::ESRCH));

    assert_eq!(w.getrlimit(STACK, PAGE, X86), Ok(0));
    assert_eq!(w.space.get_number(PAGE, 8), Ok(8 << 20));
    assert_eq!(w.space.get_number(PAGE + 8, 8), Ok(u64::MAX));
    stage_rlimit64(&mut w.space, PAGE, 0, u64::MAX);
    assert_eq!(w.prlimit64(0, CORE, PAGE, 0), Ok(0));
    assert_eq!(w.getrlimit(CORE, PAGE, X86), Ok(0));
    assert_eq!(w.space.get_number(PAGE, 8), Ok(0));
    // The others stay as they were.
    assert_eq!(w.getrlimit(STACK, PAGE, X86), Ok(0));
    assert_eq!(w.space.get_number(PAGE, 8), Ok(8 << 20));
}

#[test]
fn another_process_keeps_its_own_table() {
    let mut w = world();
    stage_rlimit64(&mut w.space, PAGE, 32, 64);
    assert_eq!(w.prlimit64(8, NOFILE, PAGE, 0), Ok(0));
    assert_eq!(w.theirs[1].limit, 32);
    assert_eq!(w.files.limit, 1024);
    assert_eq!(w.theirs[0].limit, 1024);
}

#[test]
fn a_limit_is_neither_read_nor_written_where_nothing_is_mapped() {
    let mut w = world();
    assert_eq!(w.getrlimit(CORE, 64, X86), Err(Errno::EFAULT));
    assert_eq!(w.setrlimit(CORE, 64, X86), Err(Errno::EFAULT));
    assert_eq!(w.prlimit64(0, CORE, 64, 0), Err(Errno::EFAULT));
    assert_eq!(w.prlimit64(0, CORE, 0, 64), Err(Errno::EFAULT));
}

#[test]
fn a_narrow_word_says_infinity_in_all_its_bits() {
    assert_eq!(to_word(u64::MAX, Arch::Arm), 0xFFFF_FFFF);
    assert_eq!(to_word(0x1_0000_0000, Arch::Arm), 0xFFFF_FFFF);
    assert_eq!(to_word(42, Arch::Arm), 42);
    assert_eq!(from_word(0xFFFF_FFFF, Arch::Arm), u64::MAX);
    assert_eq!(from_word(0xFFFF_FFFF, X86), 0xFFFF_FFFF);
    let mut w = world();
    assert_eq!(w.getrlimit(STACK, PAGE, Arch::Arm), Ok(0));
    assert_eq!(w.space.get_u32(PAGE), Ok(8 << 20));
    assert_eq!(w.space.get_u32(PAGE + 4), Ok(u32::MAX));
    assert_eq!(w.space.copy_from_user(PAGE + 8, 1), Ok(vec![UNWRITTEN]));
}

#[test]
fn check_affinity_names_the_running_processors() {
    let w = world();
    let mut space = program();
    let machine = Machine {
        count: 4,
        topology: Some(vec![
            Cpu { logical: 0, online: true },
            Cpu { logical: 1, online: false },
            Cpu { logical: 2, online: true },
            Cpu { logical: 3, online: true },
        ]),
    };
    assert_eq!(online_cpus(&machine), vec![0, 2, 3]);
    assert_eq!(mask_bytes(&machine, X86), 8);
    assert_eq!(
        sys_sched_getaffinity(&mut space, &machine, &w.live, &w.me, 0, 64, PAGE, X86),
        Ok(8)
    );
    assert_eq!(space.get_number(PAGE, 8), Ok(0b1101));
    assert_eq!(space.copy_from_user(PAGE + 8, 8), Ok(vec![UNWRITTEN; 8]));
    // What was reported can be given back.
    assert_eq!(
        sys_sched_setaffinity(&space, &machine, &w.live, &w.me, 0, 8, PAGE, X86),
        Ok(0)
    );
    assert_eq!(
        sys_sched_getaffinity(&mut space, &machine, &w.live, &w.me, 0, 7, PAGE, X86),
        Err(Errno::EINVAL)
    );
    assert!(space.put_number(PAGE, 0, 8).is_ok());
    assert_eq!(
        sys_sched_setaffinity(&space, &machine, &w.live, &w.me, 0, 8, PAGE, X86),
        Err(Errno::EINVAL)
    );
    // One that is not running is no processor to name either.
    assert!(space.put_number(PAGE, 0b10, 8).is_ok());
    assert_eq!(
        sys_sched_setaffinity(&space, &machine, &w.live, &w.me, 0, 8, PAGE, X86),
        Err(Errno::EINVAL)
    );
    assert!(space.put_number(PAGE, 0b110, 8).is_ok());
    assert_eq!(
        sys_sched_setaffinity(&space, &machine, &w.live, &w.me, 0, 8, PAGE, X86),
        Ok(0)
    );
    assert_eq!(
        sys_sched_getaffinity(&mut space, &machine, &w.live, &w.me, 99, 8, PAGE, X86),
        Err(Errno::ESRCH)
    );
}

#[test]
fn a_mask_covers_every_processor_in_whole_words() {
    let machine = |count: usize| Machine { count, topology: None };
    assert_eq!(mask_bytes(&machine(64), X86), 8);
    assert_eq!(mask_bytes(&machine(65), X86), 16);
    assert_eq!(mask_bytes(&machine(32), Arch::Arm), 4);
    assert_eq!(mask_bytes(&machine(33), Arch::Arm), 8);
    assert_eq!(online_cpus(&machine(1)), vec![0]);
}

#[test]
fn one_policy_is_what_there_is() {
    let w = world();
    let mut space = program();
    assert_eq!(sys_sched_getscheduler(&w.live, &w.me, 0), Ok(0));
    assert_eq!(sys_sched_getscheduler(&w.live, &w.me, 99), Err(Errno::ESRCH));
    assert_eq!(sys_sched_getscheduler(&w.live, &w.me, -1), Err(Errno::EINVAL));
    assert_eq!(sys_sched_getparam(&mut space, &w.live, &w.me, 0, PAGE), Ok(0));
    assert_eq!(space.get_u32(PAGE), Ok(0));
    assert_eq!(sys_sched_setparam(&space, &w.live, &w.me, 0, PAGE), Ok(0));
    assert!(space.put_u32(PAGE, 1).is_ok());
    assert_eq!(sys_sched_setparam(&space, &w.live, &w.me, 0, PAGE), Err(Errno::EINVAL));
    assert!(space.put_u32(PAGE, 0).is_ok());
    assert_eq!(sys_sched_setscheduler(&space, &w.live, &w.me, 0, 0, PAGE), Ok(0));
    assert_eq!(
        sys_sched_setscheduler(&space, &w.live, &w.me, 0, 77, PAGE),
        Err(Errno::EINVAL)
    );
    assert_eq!(priority_range(0), Ok((0, 0)));
    assert_eq!(priority_range(1), Ok((1, 99)));
    assert_eq!(priority_range(77), Err(Errno::EINVAL));
    assert_eq!(
        sys_sched_rr_get_interval(
            &mut space,
            &w.live,
            &w.me,
            0,
            PAGE,
            TimeWidth::Native,
            X86
        ),
        Ok(0)
    );
}

#[test]
fn check_a_task_name_round_trips() {
    let mut w = world();
    assert!(w.space.copy_to_user(PAGE, b"a-name-longer-than-fifteen\0").is_ok());
    assert_eq!(w.prctl(PR_SET_NAME, [PAGE, 0, 0, 0]), Ok(0));
    assert_eq!(w.prctl(PR_GET_NAME, [PAGE + 64, 0, 0, 0]), Ok(0));
    let out = w.space.copy_from_user(PAGE + 64, 24).unwrap();
    assert_eq!(out[..16], *b"a-name-longer-t\0");
    assert_eq!(out[16..], [UNWRITTEN; 8]);
    assert_eq!(w.prctl(PR_GET_DUMPABLE, [0; 4]), Ok(1));
    assert_eq!(w.prctl(0x7FFF, [0; 4]), Err(Errno::EINVAL));
    assert_eq!(&name_of(&w.table, &w.me), b"a-name-longer-t\0");
    // One that never set a name has its program's.
    assert_eq!(&name_of(&w.table, &w.live[1]), b"sh\0\0\0\0\0\0\0\0\0\0\0\0\0\0");
}

#[test]
fn attributes_are_set_and_told() {
    let mut w = world();
    assert_eq!(w.prctl(PR_SET_PDEATHSIG, [9, 0, 0, 0]), Ok(0));
    assert_eq!(w.prctl(PR_SET_PDEATHSIG, [65, 0, 0, 0]), Err(Errno::EINVAL));
    assert_eq!(w.prctl(PR_GET_PDEATHSIG, [PAGE, 0, 0, 0]), Ok(0));
    assert_eq!(w.space.get_u32(PAGE), Ok(9));
    assert_eq!(w.prctl(PR_SET_DUMPABLE, [2, 0, 0, 0]), Err(Errno::EINVAL));
    assert_eq!(w.prctl(PR_SET_DUMPABLE, [0, 0, 0, 0]), Ok(0));
    assert_eq!(w.prctl(PR_GET_DUMPABLE, [0; 4]), Ok(0));
    assert_eq!(w.prctl(PR_CAPBSET_READ, [40, 0, 0, 0]), Ok(1));
    assert_eq!(w.prctl(PR_CAPBSET_READ, [41, 0, 0, 0]), Err(Errno::EINVAL));
    // What gives privileges up cannot be taken back.
    assert_eq!(w.prctl(PR_GET_NO_NEW_PRIVS, [0; 4]), Ok(0));
    assert_eq!(w.prctl(PR_SET_NO_NEW_PRIVS, [1, 0, 0, 0]), Ok(0));
    assert_eq!(w.prctl(PR_SET_NO_NEW_PRIVS, [0, 0, 0, 0]), Err(Errno::EINVAL));
    assert_eq!(w.prctl(PR_GET_NO_NEW_PRIVS, [0; 4]), Ok(1));
}

#[test]
fn attributes_belong_to_one_process_and_leave_with_it() {
    let mut table = Table::new();
    let live = vec![process(7, 7), process(8, 7)];
    let quiet = Attributes { dumpable: false, ..Attributes::default() };
    update(&mut table, &live, &live[0], quiet);
    assert!(!get(&table, &live[0]).dumpable);
    assert!(get(&table, &live[1]).dumpable);
    // A later process with the number starts afresh.
    let later = Process { started: 999, ..process(7, 7) };
    assert!(get(&table, &later).dumpable);
    // What is kept of the dead goes once another comes.
    let remaining = vec![process(8, 7)];
    update(&mut table, &remaining, &remaining[0], Attributes::default());
    assert_eq!(table.entries.len(), 1);
    assert_eq!(table.entries[0].pid, 8);
}

#[test]
fn personalities_are_asked_and_set() {
    let mut w = world();
    assert_eq!(sys_personality(&mut w.table, &w.live, &w.me, 8), 0);
    assert_eq!(sys_personality(&mut w.table, &w.live, &w.me, u32::MAX), 8);
    assert_eq!(sys_personality(&mut w.table, &w.live, &w.me, 0), 8);
}

#[test]
fn a_robust_list_is_kept_and_told() {
    let mut w = world();
    assert_eq!(
        sys_set_robust_list(&mut w.table, &w.live, &w.me, 0x1234, 23, X86),
        Err(Errno::EINVAL)
    );
    assert_eq!(
        sys_set_robust_list(&mut w.table, &w.live, &w.me, 0x1234, 24, X86),
        Ok(0)
    );
    assert_eq!(
        sys_get_robust_list(&w.table, &mut w.space, &w.live, &w.me, 0, PAGE, PAGE + 8, X86),
        Ok(0)
    );
    assert_eq!(w.space.get_number(PAGE, 8), Ok(0x1234));
    assert_eq!(w.space.get_number(PAGE + 8, 8), Ok(24));
    assert_eq!(
        sys_get_robust_list(&w.table, &mut w.space, &w.live, &w.me, 99, PAGE, PAGE + 8, X86),
        Err(Errno::ESRCH)
    );
    // A new program has none; what else was set stays.
    let nice = get(&w.table, &w.me).nice;
    let mut thread = ThreadMemory {
        clear_child_tid: Some(0x7000),
        altstack: Some(StackRecord { sp: 0x8000, flags: 0, size: 4096 }),
    };
    reset(&mut w.table, &w.live, &w.me, &mut thread);
    assert_eq!(thread, ThreadMemory { clear_child_tid: None, altstack: None });
    assert_eq!(get(&w.table, &w.me).robust_list, 0);
    assert_eq!(get(&w.table, &w.me).nice, nice);
    assert_eq!(
        sys_get_robust_list(&w.table, &mut w.space, &w.live, &w.me, 0, PAGE, PAGE + 8, X86),
        Ok(0)
    );
    assert_eq!(w.space.get_number(PAGE, 8), Ok(0));
}

#[test]
fn a_nice_value_is_clamped_and_told_as_its_complement() {
    let mut w = world();
    assert_eq!(sys_getpriority(&w.table, &w.live, &w.me, PRIO_PROCESS, 0), Ok(20));
    assert_eq!(
        sys_setpriority(&mut w.table, &w.live, &w.me, PRIO_PROCESS, 0, 100),
        Ok(0)
    );
    assert_eq!(sys_getpriority(&w.table, &w.live, &w.me, PRIO_PROCESS, 0), Ok(1));
    assert_eq!(
        sys_setpriority(&mut w.table, &w.live, &w.me, PRIO_PROCESS, 8, -100),
        Ok(0)
    );
    assert_eq!(sys_getpriority(&w.table, &w.live, &w.me, PRIO_PROCESS, 8), Ok(40));
    // A group is as favoured as its most favoured.
    assert_eq!(sys_getpriority(&w.table, &w.live, &w.me, PRIO_PGRP, 7), Ok(40));
    assert_eq!(sys_getpriority(&w.table, &w.live, &w.me, PRIO_USER, 0), Ok(40));
    assert_eq!(
        sys_getpriority(&w.table, &w.live, &w.me, PRIO_PROCESS, 99),
        Err(Errno::ESRCH)
    );
    assert_eq!(sys_getpriority(&w.table, &w.live, &w.me, 3, 0), Err(Errno::EINVAL));
}

#[test]
fn input_and_output_priorities_are_checked() {
    let mut w = world();
    let class = |class: u32, level: u32| (class << 13) | level;
    assert_eq!(
        sys_ioprio_set(&mut w.table, &w.live, &w.me, 1, 0, class(2, 6)),
        Ok(0)
    );
    assert_eq!(
        sys_ioprio_get(&w.table, &w.live, &w.me, 1, 0),
        Ok(class(2, 6) as usize)
    );
    assert_eq!(
        sys_ioprio_set(&mut w.table, &w.live, &w.me, 1, 0, class(4, 0)),
        Err(Errno::EINVAL)
    );
    assert_eq!(sys_ioprio_get(&w.table, &w.live, &w.me, 9, 0), Err(Errno::EINVAL));
    assert_eq!(sys_ioprio_get(&w.table, &w.live, &w.me, 1, 99), Err(Errno::ESRCH));
}

#[test]
fn calls_are_routed_by_name() {
    let mut w = world();
    let machine = Machine { count: 1, topology: None };
    assert_eq!(
        syscall::limits::dispatch(
            Syscall::SchedGetPriorityMax,
            &[1, 0, 0, 0, 0, 0],
            &mut w.table,
            &mut w.space,
            &machine,
            &w.live,
            &w.me,
            &mut w.files,
            &mut w.theirs,
            X86
        ),
        Some(Ok(99))
    );
    assert_eq!(
        syscall::attributes::dispatch(
            Syscall::Personality,
            &[0xFFFF_FFFF, 0, 0, 0, 0, 0],
            &mut w.table,
            &mut w.space,
            &w.live,
            &w.me,
            X86
        ),
        Some(Ok(0))
    );
    assert_eq!(
        syscall::attributes::dispatch(
            Syscall::Write,
            &[0; 6],
            &mut w.table,
            &mut w.space,
            &w.live,
            &w.me,
            X86
        ),
        None
    );
}
