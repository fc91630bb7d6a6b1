//! Sending signals, delivering them, and the calls they interrupt.

use syscall::abi::{Arch, TimeWidth};
use syscall::credentials::Credentials;
use syscall::deliver::{
    act, entered, force, needs_attention, restart_call, restarts, return_to_user, run_handler,
    runs_a_handler, sigreturn, sigtimedwait_end, sys_pause, sys_rt_sigpending, sys_rt_sigsuspend,
    sys_rt_sigtimedwait, wait_for_signal, Act, Attention, BadFrame, DefaultAction, FrameBytes,
    Left, Look, Restart, RestartKind, Restored, Round, Settled, StackRecord, Step, Taken,
    DELIVERY_ROUNDS, SA_RESTART,
};
use syscall::errno::Errno;
use syscall::family::{CLD_EXITED, CLD_STOPPED, SIGCHLD, SIGCONT};
use syscall::kill::{
    after_post, dispatch, next_alarm, remaining, send, send_to_current, sys_alarm, sys_getitimer,
    sys_kill, sys_setitimer, sys_tgkill, sys_tkill, tell_parent, Alarm, Clock, Origin, Owed,
    Posted, Request, Rest, Sending, Told, ITIMER_REAL, ITIMER_VIRTUAL,
};
use syscall::nr::Syscall;
use syscall::process::Process;
use syscall::uaccess::{AddressSpace, Segment};

const PAGE: u64 = 0x10_0000;
const X86: Arch = Arch::X86_64;
const SECOND: u64 = 1_000_000_000;
const SENT: Origin = Origin::User { pid: 7 };
const FROM_THREAD: Origin = Origin::Thread { pid: 7 };

fn program() -> AddressSpace {
    AddressSpace {
        id: 1,
        user_end: 0x8000_0000,
        segments: vec![Segment {
            start: PAGE,
            bytes: vec![0; 4096],
            writable: true,
            shared: None,
        }],
    }
}

fn process(pid: u32, pgid: u32) -> Process {
    Process {
        pid,
        threads: Vec::new(),
        started: 1,
        pgid,
        comm: Vec::new(),
        credentials: Credentials::root(),
    }
}

#[test]
fn check_kill_finds_its_targets_and_refuses_what_it_should() {
    let live = vec![process(1, 1), process(7, 7), process(8, 7), process(9, 9)];
    let me = process(7, 7);
    assert_eq!(sys_kill(&me, &live, 7, 0), Ok((vec![1], SENT)));
    assert_eq!(sys_kill(&me, &live, i32::MAX, 0), Err(Errno::ESRCH));
    assert_eq!(sys_kill(&me, &live, 7, 65), Err(Errno::EINVAL));
    assert_eq!(sys_tgkill(&me, &live, 7, 8, 0), Err(Errno::ESRCH));
    assert_eq!(sys_tkill(&me, &live, 0, 0), Err(Errno::EINVAL));
    assert_eq!(sys_tgkill(&me, &live, 7, 7, SIGCHLD), Ok((1, FROM_THREAD)));
    // One that is ignored is discarded, and nothing is owed.
    assert_eq!(send(SIGCHLD, false), Sending::Post { leave_stop: false });
    assert_eq!(after_post(SIGCHLD, Posted::Discarded), Owed::Nothing);
}

#[test]
fn kill_reaches_a_group_or_everyone() {
    let live = vec![process(1, 1), process(7, 7), process(8, 7), process(9, 9)];
    let me = process(7, 7);
    assert_eq!(sys_kill(&me, &live, 0, 15), Ok((vec![1, 2], SENT)));
    assert_eq!(sys_kill(&me, &live, -9, 15), Ok((vec![3], SENT)));
    assert_eq!(sys_kill(&me, &live, -5, 15), Err(Errno::ESRCH));
    // Everyone is neither the caller nor the first process.
    assert_eq!(sys_kill(&me, &live, -1, 15), Ok((vec![2, 3], SENT)));
    assert_eq!(sys_tkill(&me, &live, 9, 15), Ok((3, FROM_THREAD)));
    assert_eq!(sys_tkill(&me, &live, 10, 15), Err(Errno::ESRCH));
    assert_eq!(sys_tgkill(&me, &live, -1, 9, 15), Err(Errno::EINVAL));
    assert_eq!(sys_tgkill(&me, &live, 9, 9, 65), Err(Errno::EINVAL));
}

#[test]
fn a_signal_is_posted_to_what_still_runs() {
    assert_eq!(send(0, false), Sending::Nothing);
    assert_eq!(send(65, false), Sending::Nothing);
    assert_eq!(send(9, true), Sending::Nothing);
    assert_eq!(send(SIGCONT, false), Sending::Post { leave_stop: true });
    assert_eq!(after_post(9, Posted::Fatal), Owed::Kill(137));
    assert_eq!(after_post(2, Posted::Pending), Owed::Notify);
    assert_eq!(send_to_current(11, None), None);
    assert_eq!(
        send_to_current(11, Some(false)),
        Some((Sending::Post { leave_stop: false }, Origin::Kernel))
    );
}

#[test]
fn a_parent_is_told_of_its_child() {
    assert_eq!(tell_parent(None, 7, SIGCHLD, CLD_EXITED, 0), Told::Nobody);
    assert_eq!(
        tell_parent(Some(false), 7, 10, CLD_EXITED, 3),
        Told::Woken { send: Some((10, Origin::Child { code: CLD_EXITED, pid: 7, status: 3 })) }
    );
    // A stop is always told with the one signal, or not at all.
    assert_eq!(
        tell_parent(Some(false), 7, 10, CLD_STOPPED, 19),
        Told::Woken {
            send: Some((SIGCHLD, Origin::Child { code: CLD_STOPPED, pid: 7, status: 19 }))
        }
    );
    assert_eq!(
        tell_parent(Some(true), 7, 10, CLD_STOPPED, 19),
        Told::Woken { send: None }
    );
    assert_eq!(
        tell_parent(Some(true), 7, 10, CLD_EXITED, 3),
        Told::Woken { send: Some((10, Origin::Child { code: CLD_EXITED, pid: 7, status: 3 })) }
    );
}

#[test]
fn an_alarm_answers_what_was_left_of_the_last() {
    let mut alarm = Alarm { deadline: 0, interval: 0 };
    assert_eq!(sys_alarm(&mut alarm, 10, 5 * SECOND), 0);
    assert_eq!(alarm, Alarm { deadline: 15 * SECOND, interval: 0 });
    // Part of a second counts as one.
    assert_eq!(sys_alarm(&mut alarm, 0, 14 * SECOND + 1), 1);
    assert_eq!(alarm.deadline, 0);
    assert_eq!(sys_alarm(&mut alarm, 3, 0), 0);
    assert_eq!(remaining(alarm, SECOND), (0, 2 * SECOND));
    // One that is due reads as armed all the same.
    assert!(remaining(alarm, 100 * SECOND).1 > 0);
}

#[test]
fn a_timer_is_set_and_read_back() {
    let mut space = program();
    let mut alarm = Alarm { deadline: 0, interval: 0 };
    for (at, value) in [(0, 1_u64), (8, 500_000), (16, 2), (24, 250_000)] {
        assert!(space.put_number(PAGE + at, value, 8).is_ok());
    }
    assert_eq!(
        sys_setitimer(&mut space, &mut alarm, ITIMER_REAL, PAGE, PAGE + 64, SECOND, X86),
        Ok(0)
    );
    assert_eq!(
        alarm,
        Alarm { deadline: SECOND + 2_250_000_000, interval: 1_500_000_000 }
    );
    assert_eq!(sys_getitimer(&mut space, alarm, ITIMER_REAL, PAGE + 128, SECOND, X86), Ok(0));
    for (at, value) in [(0, 1_u64), (8, 500_000), (16, 2), (24, 250_000)] {
        assert_eq!(space.get_number(PAGE + 128 + at, 8), Ok(value));
        assert_eq!(space.get_number(PAGE + 64 + at, 8), Ok(0));
    }
    assert_eq!(
        sys_setitimer(&mut space, &mut alarm, 7, PAGE, 0, SECOND, X86),
        Err(Errno::EINVAL)
    );
    assert!(space.put_number(PAGE + 24, 1_000_000, 8).is_ok());
    assert_eq!(
        sys_setitimer(&mut space, &mut alarm, ITIMER_REAL, PAGE, 0, SECOND, X86),
        Err(Errno::EINVAL)
    );
    assert_eq!(
        sys_setitimer(&mut space, &mut alarm, ITIMER_REAL, 64, 0, SECOND, X86),
        Err(Errno::EFAULT)
    );
    // The timers that count processor time are never armed.
    assert_eq!(sys_getitimer(&mut space, alarm, ITIMER_VIRTUAL, PAGE, SECOND, X86), Ok(0));
    assert_eq!(space.copy_from_user(PAGE, 32), Ok(vec![0; 32]));
}

#[test]
fn no_alarm_is_slept_past() {
    let alarms = vec![
        Alarm { deadline: 0, interval: 0 },
        Alarm { deadline: 70, interval: 0 },
        Alarm { deadline: 30, interval: 9 },
    ];
    assert_eq!(next_alarm(&alarms), 30);
    assert_eq!(next_alarm(&Vec::new()), u64::MAX);
    let mut clock = Clock { running: false, changed: false };
    assert!(clock.alarms_changed());
    assert!(!clock.alarms_changed());
    assert_eq!(clock.rest(30), Rest::Until(30));
    // A change that came between the look and the rest is not lost.
    assert_eq!(clock.rest(u64::MAX), Rest::LookAgain);
    assert_eq!(clock.rest(u64::MAX), Rest::End);
    assert!(clock.alarms_changed());
    clock.not_started();
    assert!(!clock.running);
}

#[test]
fn signal_calls_are_routed_by_name() {
    let low = |v: i32| u64::from(v as u32);
    assert_eq!(
        dispatch(Syscall::Kill, &[low(-3), 15, 0, 0, 0, 0]),
        Some(Request::Kill { pid: -3, signal: 15 })
    );
    assert_eq!(
        dispatch(Syscall::Tgkill, &[7, 8, 9, 0, 0, 0]),
        Some(Request::Tgkill { tgid: 7, tid: 8, signal: 9 })
    );
    assert_eq!(
        dispatch(Syscall::Setitimer, &[0, 5, 6, 0, 0, 0]),
        Some(Request::Setitimer { which: 0, new: 5, previous: 6 })
    );
    assert_eq!(dispatch(Syscall::Pause, &[0; 6]), Some(Request::Pause));
    assert_eq!(dispatch(Syscall::Write, &[0; 6]), None);
}

#[test]
fn check_restart_decisions() {
    for value in [0, Errno::EINTR.as_return_value(), Errno::EFAULT.as_return_value()] {
        assert_eq!(RestartKind::of(value), None);
    }
    for (errno, kind) in [
        (Errno::ERESTARTSYS, RestartKind::Sys),
        (Errno::ERESTARTNOINTR, RestartKind::NoIntr),
        (Errno::ERESTARTNOHAND, RestartKind::NoHand),
        (Errno::ERESTARTBLOCK, RestartKind::RestartBlock),
    ] {
        assert_eq!(RestartKind::of(errno.as_return_value()), Some(kind));
    }
    for (kind, handler, flags, expect) in [
        (RestartKind::Sys, true, SA_RESTART, true),
        (RestartKind::Sys, true, 0, false),
        (RestartKind::NoIntr, true, 0, true),
        (RestartKind::NoHand, true, SA_RESTART, false),
        (RestartKind::RestartBlock, true, SA_RESTART, false),
        (RestartKind::Sys, false, 0, true),
        (RestartKind::NoHand, false, 0, true),
        (RestartKind::RestartBlock, false, 0, true),
        (RestartKind::NoIntr, false, 0, true),
    ] {
        assert_eq!(restarts(kind, handler, flags), expect);
    }
}

fn handled(flags: u64) -> Taken {
    Taken {
        signal: 10,
        default: DefaultAction::Terminate,
        handler: 0x40_1000,
        flags,
        restorer: 0x40_2000,
    }
}

fn defaulted(signal: u32, default: DefaultAction) -> Taken {
    Taken { signal, default, handler: 0, flags: 0, restorer: 0 }
}

#[test]
fn a_default_action_is_taken() {
    assert_eq!(act(&defaulted(15, DefaultAction::Terminate)), Act::Kill(143));
    assert_eq!(act(&defaulted(11, DefaultAction::Core)), Act::Kill(139));
    assert_eq!(act(&defaulted(19, DefaultAction::Stop)), Act::Stop(19));
    assert_eq!(act(&defaulted(17, DefaultAction::Ignore)), Act::Nothing);
    assert_eq!(act(&defaulted(18, DefaultAction::Continue)), Act::Nothing);
    assert_eq!(act(&handled(0)), Act::Handle);
    assert_eq!(act(&Taken { handler: 1, ..handled(0) }), Act::Nothing);
    assert!(runs_a_handler(&handled(0)));
    assert!(!runs_a_handler(&defaulted(15, DefaultAction::Terminate)));
}

#[test]
fn a_call_is_settled_by_the_first_handler_and_once() {
    let call = Restart { nr: 202, arg0: 5 };
    let mut delivery = return_to_user(Some(call), Errno::ERESTARTSYS.as_return_value());
    assert_eq!(
        delivery.round(Round::Signal(defaulted(17, DefaultAction::Ignore))),
        Step::Deliver { settled: None, act: Act::Nothing }
    );
    assert_eq!(delivery.round(Round::Stopped), Step::Wait);
    assert_eq!(
        delivery.round(Round::Signal(handled(0))),
        Step::Deliver { settled: Some(Settled::Interrupted), act: Act::Handle }
    );
    assert_eq!(
        delivery.round(Round::Signal(handled(SA_RESTART))),
        Step::Deliver { settled: None, act: Act::Handle }
    );
    assert_eq!(delivery.round(Round::Quiet), Step::Leave { settled: None });
}

#[test]
fn a_call_no_handler_interrupts_is_made_again() {
    let call = Restart { nr: 202, arg0: 5 };
    let again = Settled::Again { nr: 202, arg0: 5, rest: false };
    let mut delivery = return_to_user(Some(call), Errno::ERESTARTNOHAND.as_return_value());
    assert_eq!(delivery.round(Round::Quiet), Step::Leave { settled: Some(again) });
    let mut asked = return_to_user(Some(call), Errno::ERESTARTSYS.as_return_value());
    assert_eq!(
        asked.round(Round::Signal(handled(SA_RESTART))),
        Step::Deliver { settled: Some(again), act: Act::Handle }
    );
    assert_eq!(
        restart_call(call, RestartKind::RestartBlock),
        Settled::Again { nr: 202, arg0: 5, rest: true }
    );
    // An ordinary answer is left as it is, and so is one nobody recorded.
    let mut plain = return_to_user(Some(call), -4);
    assert_eq!(plain.round(Round::Ended), Step::Leave { settled: None });
    let mut unknown = return_to_user(None, Errno::ERESTARTSYS.as_return_value());
    assert_eq!(unknown.round(Round::Quiet), Step::Leave { settled: None });
}

#[test]
fn delivery_ends_however_many_signals_come() {
    let mut delivery = return_to_user(None, 0);
    for _ in 0..DELIVERY_ROUNDS {
        assert!(matches!(
            delivery.round(Round::Signal(handled(0))),
            Step::Deliver { .. }
        ));
    }
    assert_eq!(
        delivery.round(Round::Signal(handled(0))),
        Step::Leave { settled: None }
    );
}

#[test]
fn attention_is_asked_for_by_any_of_three() {
    assert!(!needs_attention(None));
    let quiet = Attention { terminated: false, stopped: false, signals: false };
    assert!(!needs_attention(Some(quiet)));
    assert!(needs_attention(Some(Attention { terminated: true, ..quiet })));
    assert!(needs_attention(Some(Attention { stopped: true, ..quiet })));
    assert!(needs_attention(Some(Attention { signals: true, ..quiet })));
}

const STACK: StackRecord = StackRecord { sp: 0x7000, flags: -2, size: 0x2000 };

#[test]
fn a_handler_outside_the_user_half_is_not_entered() {
    let request =
        run_handler(&handled(4), vec![1, 2], 0xF0, 0x6000, STACK, 0x8000_0000).unwrap();
    assert_eq!(request.handler, 0x40_1000);
    assert_eq!(request.restorer, 0x40_2000);
    assert_eq!(request.mask, 0xF0);
    assert_eq!(request.info, vec![1, 2]);
    assert!(run_handler(&handled(4), Vec::new(), 0, 0, STACK, 0x40_1000).is_err());
    assert_eq!(entered(Err(BadFrame)), Act::Kill(139));
    assert_eq!(entered(Ok(())), Act::Nothing);
}

#[test]
fn returning_from_a_handler_restores_or_kills() {
    assert_eq!(
        sigreturn(Ok(Restored { mask: 9, altstack: STACK }), 0x5000),
        Left::Resume { mask: 9, altstack: STACK, sp: 0x5000 }
    );
    assert_eq!(sigreturn(Err(BadFrame), 0x5000), Left::Kill(139));
}

#[test]
fn a_frame_holds_what_was_put_in_it() {
    let mut frame = FrameBytes::zeroed(64);
    assert_eq!(frame.put_u32(4, 0xDEAD_BEEF), Ok(()));
    assert_eq!(frame.put_u64(8, 0x0123_4567_89AB_CDEF), Ok(()));
    assert_eq!(frame.put_stack(16, STACK, X86), Ok(()));
    assert_eq!(frame.u32_at(4), Ok(0xDEAD_BEEF));
    assert_eq!(frame.u64_at(8), Ok(0x0123_4567_89AB_CDEF));
    assert_eq!(frame.stack_at(16, X86), Ok(STACK));
    assert_eq!(frame.get(4, 2), Ok(&[0xEF, 0xBE][..]));
    assert_eq!(frame.put(62, &[1, 2, 3]), Err(BadFrame));
    assert_eq!(frame.u64_at(60), Err(BadFrame));
    let mut narrow = FrameBytes::zeroed(12);
    assert_eq!(narrow.put_stack(0, STACK, Arch::Arm), Ok(()));
    assert_eq!(narrow.stack_at(0, Arch::Arm), Ok(STACK));

    let mut space = program();
    assert_eq!(frame.write(&mut space, PAGE + 8), Ok(()));
    assert_eq!(FrameBytes::read(&space, PAGE + 8, 64).unwrap().bytes, frame.bytes);
    assert_eq!(frame.write(&mut space, 64), Err(BadFrame));
    assert!(FrameBytes::read(&space, PAGE + 4090, 64).is_err());
}

#[test]
fn forcing_a_fatal_signal_ends_the_program() {
    assert_eq!(force(11, Some(syscall::deliver::Posted::Fatal)), (Some(syscall::deliver::Posted::Fatal), Some(139)));
    assert_eq!(force(11, Some(syscall::deliver::Posted::Queued)), (Some(syscall::deliver::Posted::Queued), None));
    assert_eq!(force(11, None), (None, None));
}

#[test]
fn a_wait_ends_with_a_signal_or_its_time() {
    assert!(wait_for_signal(true, false, 0, 10));
    assert!(wait_for_signal(false, true, 0, 10));
    assert!(wait_for_signal(false, false, 10, 10));
    assert!(!wait_for_signal(false, false, 9, 10));
    assert_eq!(sys_pause(false, 5), Look::Sleep(u64::MAX));
    assert_eq!(sys_pause(true, 5), Look::Answer(Err(Errno::EINTR)));
    assert_eq!(sys_pause(false, u64::MAX), Look::Answer(Err(Errno::EINTR)));
}

#[test]
fn the_unblockable_are_never_waited_for() {
    let mut space = program();
    assert!(space.put_number(PAGE, u64::MAX, 8).is_ok());
    assert_eq!(sys_rt_sigsuspend(&space, PAGE, 8), Ok(u64::MAX));
    assert_eq!(sys_rt_sigsuspend(&space, PAGE, 4), Err(Errno::EINVAL));
    assert_eq!(sys_rt_sigsuspend(&space, 64, 8), Err(Errno::EFAULT));
    assert!(space.put_number(PAGE + 16, 2, 8).is_ok());
    let wait =
        sys_rt_sigtimedwait(&space, PAGE, PAGE + 16, 8, TimeWidth::Native, SECOND, X86).unwrap();
    assert_eq!(wait.set, !0x4_0100);
    assert_eq!(wait.deadline, 3 * SECOND);
    let forever =
        sys_rt_sigtimedwait(&space, PAGE, 0, 8, TimeWidth::Native, SECOND, X86).unwrap();
    assert_eq!(forever.deadline, u64::MAX);
    assert!(space.put_number(PAGE + 24, SECOND, 8).is_ok());
    assert_eq!(
        sys_rt_sigtimedwait(&space, PAGE, PAGE + 16, 8, TimeWidth::Native, 0, X86).err(),
        Some(Errno::EINVAL)
    );
}

#[test]
fn a_timed_wait_answers_its_signal() {
    let mut space = program();
    let info = vec![0xAB; 128];
    assert_eq!(
        sigtimedwait_end(&mut space, Some((10, info.clone())), PAGE, false),
        Ok(10)
    );
    assert_eq!(space.copy_from_user(PAGE, 128), Ok(info.clone()));
    assert_eq!(sigtimedwait_end(&mut space, Some((10, info.clone())), 0, false), Ok(10));
    assert_eq!(
        sigtimedwait_end(&mut space, Some((10, info)), 64, false),
        Err(Errno::EFAULT)
    );
    assert_eq!(sigtimedwait_end(&mut space, None, 0, true), Err(Errno::EINTR));
    assert_eq!(sigtimedwait_end(&mut space, None, 0, false), Err(Errno::EAGAIN));
}

#[test]
fn what_is_pending_and_blocked_is_told() {
    let mut space = program();
    assert_eq!(sys_rt_sigpending(&mut space, 0b1100, 0b0011, 0b0110, PAGE, 8), Ok(0));
    assert_eq!(space.get_number(PAGE, 8), Ok(0b0110));
    assert_eq!(
        sys_rt_sigpending(&mut space, 1, 1, 1, PAGE, 9),
        Err(Errno::EINVAL)
    );
    assert_eq!(sys_rt_sigpending(&mut space, 1, 1, 1, 64, 8), Err(Errno::EFAULT));
}

#[test]
fn the_clock_ends_only_when_nothing_is_armed() {
    let mut clock = Clock { running: true, changed: false };
    let armed = vec![Alarm { deadline: 0, interval: 0 }, Alarm { deadline: 70, interval: 0 }];
    assert_eq!(clock.run_alarm_clock(&armed), Rest::Until(70));
    assert!(!clock.alarms_changed());
    assert!(clock.roused());
    assert!(!clock.roused());
    let quiet = vec![Alarm { deadline: 0, interval: 5 }];
    assert!(!clock.alarms_changed());
    assert_eq!(clock.run_alarm_clock(&quiet), Rest::LookAgain);
    assert_eq!(clock.run_alarm_clock(&quiet), Rest::End);
    assert_eq!(clock, Clock { running: false, changed: false });
}

#[test]
fn a_thread_is_signalled_by_its_own_id() {
    let mut other = process(5, 5);
    other.threads = vec![6, 9];
    let me = process(3, 3);
    let live = vec![process(3, 3), other, process(8, 8)];
    let from_me = Origin::Thread { pid: 3 };
    assert_eq!(sys_tkill(&me, &live, 6, 10), Ok((1, from_me)));
    assert_eq!(sys_tkill(&me, &live, 5, 10), Ok((1, from_me)));
    assert_eq!(sys_tkill(&me, &live, 7, 10), Err(Errno::ESRCH));
    assert_eq!(sys_tgkill(&me, &live, 5, 9, 10), Ok((1, from_me)));
    assert_eq!(sys_tgkill(&me, &live, 8, 9, 10), Err(Errno::ESRCH));
    assert_eq!(sys_tgkill(&me, &live, 5, 8, 10), Err(Errno::ESRCH));
}
