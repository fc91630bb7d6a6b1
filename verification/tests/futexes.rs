//! Waiting on a word, and being woken.

use syscall::abi::{Arch, TimeWidth};
use syscall::errno::Errno;
use syscall::futex::{
    either_key, forget_waiters, key, read_timespec, read_word, sys_futex, waiters_on, wake,
    wake_address, woke, Answer, Ended, Key, Sleeper, Table, FUTEX_BITSET_MATCH_ANY,
    FUTEX_CLOCK_REALTIME, FUTEX_CMP_REQUEUE, FUTEX_PRIVATE_FLAG, FUTEX_WAIT, FUTEX_WAIT_BITSET,
    FUTEX_WAKE, FUTEX_WAKE_BITSET,
};
use syscall::uaccess::{AddressSpace, Backing, Segment};

const WORD_VALUE: u32 = 0x0F07_0E21;
const PAGE: u64 = 0x10_0000;
const FUTEX_WAKE_OP: u32 = 5;

fn program(id: u64) -> AddressSpace {
    let mut bytes = vec![0_u8; 4096];
    bytes[..4].copy_from_slice(&WORD_VALUE.to_le_bytes());
    AddressSpace {
        id,
        user_end: 0x8000_0000,
        segments: vec![Segment { start: PAGE, bytes, writable: true, shared: None }],
    }
}

fn sharing(id: u64, at: u64) -> AddressSpace {
    AddressSpace {
        id,
        user_end: 0x8000_0000,
        segments: vec![Segment {
            start: at,
            bytes: vec![0; 4096],
            writable: true,
            shared: Some(Backing { object: 77, offset: 4096 }),
        }],
    }
}

fn sleeper(id: u64) -> Sleeper {
    Sleeper { id, task: Some(100 + id), woken: false }
}

fn call(
    table: &mut Table,
    space: &AddressSpace,
    id: u64,
    a: [u64; 6],
    now: u64,
) -> Result<Answer, Errno> {
    sys_futex(table, space, sleeper(id), &a, TimeWidth::Native, Arch::X86_64, now)
}

fn stage_timespec(space: &mut AddressSpace, at: u64, seconds: u64, nanos: u64) {
    assert!(space.put_number(at, seconds, 8).is_ok());
    assert!(space.put_number(at + 8, nanos, 8).is_ok());
}

fn count_of(answer: Result<Answer, Errno>) -> Result<usize, Errno> {
    match answer {
        Ok(Answer::Done { count, .. }) => Ok(count),
        Ok(Answer::Asleep { .. }) => panic!("it went to sleep"),
        Err(e) => Err(e),
    }
}

fn deadline_of(answer: Result<Answer, Errno>) -> u64 {
    match answer {
        Ok(Answer::Asleep { deadline }) => deadline,
        _ => panic!("it did not go to sleep"),
    }
}

#[test]
fn check_futexes() {
    let mut space = program(1);
    let mut table = Table::new();
    let word = PAGE;
    let timeout = PAGE + 16;
    let wait = u64::from(FUTEX_WAIT | FUTEX_PRIVATE_FLAG);
    let expected = u64::from(WORD_VALUE);

    let changed = call(&mut table, &space, 1, [word, wait, expected + 1, 0, 0, 0], 0);
    assert_eq!(count_of(changed), Err(Errno::EAGAIN));
    let askew = call(&mut table, &space, 1, [word + 1, wait, expected, 0, 0, 0], 0);
    assert_eq!(count_of(askew), Err(Errno::EINVAL));

    // A timed wait that nobody wakes times out, and not early.
    stage_timespec(&mut space, timeout, 0, 20_000_000);
    let asleep = call(&mut table, &space, 1, [word, wait, expected, timeout, 0, 0], 1_000);
    let deadline = deadline_of(asleep);
    assert_eq!(deadline, 20_001_000);
    assert_eq!(waiters_on(&table, &space, word), 1);
    assert_eq!(woke(&mut table, &sleeper(1), false, deadline - 1, deadline), Ended::Again);
    assert_eq!(
        woke(&mut table, &sleeper(1), false, deadline, deadline),
        Ended::Answer(Err(Errno::ETIMEDOUT))
    );
    assert_eq!(waiters_on(&table, &space, word), 0);

    // An absolute deadline, long past.
    stage_timespec(&mut space, timeout, 0, 1);
    let bitset = u64::from(FUTEX_WAIT_BITSET | FUTEX_PRIVATE_FLAG | FUTEX_CLOCK_REALTIME);
    let past = call(&mut table, &space, 2, [word, bitset, expected, timeout, 0, 1], 500);
    assert_eq!(deadline_of(past), 1);
    assert_eq!(
        woke(&mut table, &sleeper(2), false, 500, 1),
        Ended::Answer(Err(Errno::ETIMEDOUT))
    );
    let empty = call(&mut table, &space, 2, [word, bitset, expected, timeout, 0, 0], 500);
    assert_eq!(count_of(empty), Err(Errno::EINVAL));
    let realtime = u64::from(FUTEX_WAKE | FUTEX_CLOCK_REALTIME);
    assert_eq!(
        count_of(call(&mut table, &space, 2, [word, realtime, 1, 0, 0, 0], 0)),
        Err(Errno::ENOSYS)
    );
    let wake_op = [word, u64::from(FUTEX_WAKE_OP), 1, 1, word + 4, 0];
    assert_eq!(count_of(call(&mut table, &space, 2, wake_op, 0)), Err(Errno::ENOSYS));
    let nobody = [word, u64::from(FUTEX_WAKE), 1, 0, 0, 0];
    assert_eq!(count_of(call(&mut table, &space, 2, nobody, 0)), Ok(0));
    let requeue = u64::from(FUTEX_CMP_REQUEUE);
    assert_eq!(
        count_of(call(&mut table, &space, 2, [word, requeue, 1, 1, word + 4, expected + 1], 0)),
        Err(Errno::EAGAIN)
    );

    // A waiter is roused by a wake.
    stage_timespec(&mut space, timeout, 2, 0);
    let _ = deadline_of(call(&mut table, &space, 3, [word, wait, expected, timeout, 0, 0], 0));
    let private_wake = u64::from(FUTEX_WAKE | FUTEX_PRIVATE_FLAG);
    match call(&mut table, &space, 9, [word, private_wake, 1, 0, 0, 0], 0) {
        Ok(Answer::Done { count, roused }) => {
            assert_eq!(count, 1);
            assert_eq!(roused.len(), 1);
            assert_eq!(roused[0].id, 3);
            assert!(roused[0].woken);
            assert_eq!(
                woke(&mut table, &roused[0], false, 1, 2_000_000_000),
                Ended::Answer(Ok(0))
            );
        }
        _ => panic!("the wake slept"),
    }

    // Moved to the next word, then woken there.
    let _ = deadline_of(call(&mut table, &space, 4, [word, wait, expected, timeout, 0, 0], 0));
    let private_requeue = u64::from(FUTEX_CMP_REQUEUE | FUTEX_PRIVATE_FLAG);
    let moved = call(&mut table, &space, 9, [word, private_requeue, 0, 1, word + 4, expected], 0);
    assert_eq!(count_of(moved), Ok(1));
    assert_eq!(waiters_on(&table, &space, word), 0);
    assert_eq!(
        count_of(call(&mut table, &space, 9, [word + 4, private_wake, 1, 0, 0, 0], 0)),
        Ok(1)
    );
}

#[test]
fn a_forgotten_waiter_is_caught() {
    let mut space = program(1);
    let mut table = Table::new();
    let wait = u64::from(FUTEX_WAIT | FUTEX_PRIVATE_FLAG);
    stage_timespec(&mut space, PAGE + 16, 0, 200_000_000);
    let asleep =
        call(&mut table, &space, 5, [PAGE, wait, u64::from(WORD_VALUE), PAGE + 16, 0, 0], 0);
    let deadline = deadline_of(asleep);
    assert_eq!(forget_waiters(&mut table, &space, PAGE, 1), 1);
    // Counted, but never roused: it sleeps on to its timeout.
    assert_eq!(woke(&mut table, &sleeper(5), false, 1_000, deadline), Ended::Again);
    assert_eq!(
        woke(&mut table, &sleeper(5), false, deadline, deadline),
        Ended::Answer(Err(Errno::ETIMEDOUT))
    );
}

#[test]
fn a_signal_interrupts_a_wait() {
    let space = program(1);
    let mut table = Table::new();
    let wait = u64::from(FUTEX_WAIT);
    let asleep = call(&mut table, &space, 6, [PAGE, wait, u64::from(WORD_VALUE), 0, 0, 0], 0);
    let deadline = deadline_of(asleep);
    assert_eq!(deadline, u64::MAX);
    assert_eq!(
        woke(&mut table, &sleeper(6), true, 10, deadline),
        Ended::Answer(Err(Errno::ERESTARTSYS))
    );
    assert_eq!(waiters_on(&table, &space, PAGE), 0);
}

#[test]
fn a_wake_takes_whom_it_counts_and_keeps_the_rest_in_order() {
    let space = program(1);
    let mut table = Table::new();
    let wait = u64::from(FUTEX_WAIT | FUTEX_PRIVATE_FLAG);
    for id in 1..=3 {
        let _ = deadline_of(call(
            &mut table,
            &space,
            id,
            [PAGE, wait, u64::from(WORD_VALUE), 0, 0, 0],
            0,
        ));
    }
    let roused = wake(&mut table, &space, PAGE, false, 2, FUTEX_BITSET_MATCH_ANY).unwrap();
    assert_eq!(roused.iter().map(|s| s.id).collect::<Vec<_>>(), vec![1, 2]);
    assert_eq!(table.entries.len(), 1);
    assert_eq!(table.entries[0].sleeper.id, 3);
}

#[test]
fn a_bitset_wake_passes_by_those_who_wait_for_other_bits() {
    let space = program(1);
    let mut table = Table::new();
    let wait = u64::from(FUTEX_WAIT_BITSET | FUTEX_PRIVATE_FLAG);
    for (id, bits) in [(1_u64, 2_u64), (2, 4)] {
        let _ = deadline_of(call(
            &mut table,
            &space,
            id,
            [PAGE, wait, u64::from(WORD_VALUE), 0, 0, bits],
            0,
        ));
    }
    let some = u64::from(FUTEX_WAKE_BITSET | FUTEX_PRIVATE_FLAG);
    match call(&mut table, &space, 9, [PAGE, some, 5, 0, 0, 4], 0) {
        Ok(Answer::Done { count, roused }) => {
            assert_eq!(count, 1);
            assert_eq!(roused[0].id, 2);
        }
        _ => panic!("the wake slept"),
    }
    assert_eq!(waiters_on(&table, &space, PAGE), 1);
}

#[test]
fn a_requeue_keeps_every_waiter() {
    let space = program(1);
    let mut table = Table::new();
    let wait = u64::from(FUTEX_WAIT | FUTEX_PRIVATE_FLAG);
    for id in 1..=4 {
        let _ = deadline_of(call(
            &mut table,
            &space,
            id,
            [PAGE, wait, u64::from(WORD_VALUE), 0, 0, 0],
            0,
        ));
    }
    let requeue = u64::from(FUTEX_CMP_REQUEUE | FUTEX_PRIVATE_FLAG);
    let done = call(
        &mut table,
        &space,
        9,
        [PAGE, requeue, 1, 2, PAGE + 8, u64::from(WORD_VALUE)],
        0,
    );
    assert_eq!(count_of(done), Ok(3));
    assert_eq!(waiters_on(&table, &space, PAGE), 1);
    assert_eq!(waiters_on(&table, &space, PAGE + 8), 2);
}

#[test]
fn private_words_are_apart_and_shared_ones_are_one() {
    assert_ne!(Key::new(&program(1), PAGE, false), Key::new(&program(2), PAGE, false));
    let one = sharing(1, 0x20_0000);
    let two = sharing(2, 0x70_0000);
    assert_eq!(Key::new(&one, 0x20_0010, true), Key::new(&two, 0x70_0010, true));
    assert_eq!(
        Key::new(&one, 0x20_0010, true),
        Key::Shared { object: 77, offset: 4096 + 16 }
    );
    let both = either_key(&one, 0x20_0010);
    assert_ne!(both[0], both[1]);
    assert_eq!(key(&one, 0x20_0011, true), Err(Errno::EINVAL));
    assert_eq!(read_word(&one, 0x30_0000), Err(Errno::EFAULT));
    assert_eq!(read_word(&program(1), PAGE), Ok(WORD_VALUE));
}

#[test]
fn waking_an_address_finds_both_kinds_of_waiter() {
    let space = program(1);
    let mut table = Table::new();
    let wait = u64::from(FUTEX_WAIT | FUTEX_PRIVATE_FLAG);
    let _ =
        deadline_of(call(&mut table, &space, 1, [PAGE, wait, u64::from(WORD_VALUE), 0, 0, 0], 0));
    assert_eq!(wake_address(&mut table, &space, PAGE, 1).len(), 1);
    assert_eq!(wake_address(&mut table, &space, PAGE, 1).len(), 0);
}

#[test]
fn a_timeout_is_read_or_refused() {
    let mut space = program(1);
    stage_timespec(&mut space, PAGE + 16, 3, 7);
    assert_eq!(
        read_timespec(&space, PAGE + 16, TimeWidth::Native, Arch::Aarch64),
        Ok(3_000_000_007)
    );
    stage_timespec(&mut space, PAGE + 16, 0, 1_000_000_000);
    assert_eq!(
        read_timespec(&space, PAGE + 16, TimeWidth::Wide, Arch::Arm),
        Err(Errno::EINVAL)
    );
    stage_timespec(&mut space, PAGE + 16, u64::MAX, 0);
    assert_eq!(
        read_timespec(&space, PAGE + 16, TimeWidth::Wide, Arch::Arm),
        Err(Errno::EINVAL)
    );
    assert_eq!(
        read_timespec(&space, PAGE + 4090, TimeWidth::Wide, Arch::Arm),
        Err(Errno::EFAULT)
    );
    // Two 32-bit fields on the 32-bit machine.
    assert!(space.put_number(PAGE + 32, 2, 4).is_ok());
    assert!(space.put_number(PAGE + 36, 5, 4).is_ok());
    assert_eq!(
        read_timespec(&space, PAGE + 32, TimeWidth::Native, Arch::Arm),
        Ok(2_000_000_005)
    );
}

#[test]
fn forgetting_lowers_the_count_and_rouses_nobody() {
    let space = program(1);
    let mut table = Table::new();
    let wait = u64::from(FUTEX_WAIT);
    for task in 1..=3 {
        let asleep =
            call(&mut table, &space, task, [PAGE, wait, u64::from(WORD_VALUE), 0, 0, 0], 0);
        assert_eq!(deadline_of(asleep), u64::MAX);
    }
    assert_eq!(waiters_on(&table, &space, PAGE), 3);
    // None asked for still takes one.
    assert_eq!(forget_waiters(&mut table, &space, PAGE, 0), 1);
    assert_eq!(waiters_on(&table, &space, PAGE), 2);
    assert_eq!(forget_waiters(&mut table, &space, PAGE, 9), 2);
    assert_eq!(waiters_on(&table, &space, PAGE), 0);
    assert_eq!(forget_waiters(&mut table, &space, PAGE, 9), 0);
    for task in 1..=3 {
        assert_eq!(woke(&mut table, &sleeper(task), false, 5, u64::MAX), Ended::Again);
    }
}
