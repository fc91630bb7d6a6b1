//! The way in: which calls go where, the errors they answer with, and the
//! memory they are handed.

use syscall::dispatch::{
    dispatch, has_personality, new_entry, register_personality, report_unanswered, Route,
};
use syscall::errno::Errno;
use syscall::nr::Syscall;
use syscall::uaccess::{AddressSpace, Backing, CString, Segment};

const PAGE: u64 = 0x10_0000;

#[test]
fn check_an_unknown_number_is_enosys() {
    let mut entry = new_entry();
    register_personality(&mut entry, 3);
    assert_eq!(
        dispatch(&mut entry, false, None),
        Route::Return { value: Errno::ENOSYS.as_return_value(), report: false }
    );
    assert_eq!(Errno::ENOSYS.as_return_value(), -38);
}

#[test]
fn a_call_goes_to_its_personality_once_there_is_one() {
    let mut entry = new_entry();
    assert!(!has_personality(&entry));
    assert_eq!(
        dispatch(&mut entry, false, Some(Syscall::Write)),
        Route::Return { value: -38, report: false }
    );
    assert_eq!(dispatch(&mut entry, true, None), Route::Native);
    register_personality(&mut entry, 3);
    assert!(has_personality(&entry));
    // The first one stays.
    register_personality(&mut entry, 4);
    assert_eq!(
        dispatch(&mut entry, false, Some(Syscall::Write)),
        Route::Personality { who: 3, call: Syscall::Write }
    );
}

#[test]
fn unanswered_calls_are_reported_as_often_as_asked() {
    let mut entry = new_entry();
    report_unanswered(&mut entry, 2);
    for report in [true, true, false, false] {
        assert_eq!(
            dispatch(&mut entry, false, None),
            Route::Return { value: -38, report }
        );
    }
}

#[test]
fn check_errors_encode_as_negative() {
    for (errno, number) in [
        (Errno::EPERM, 1),
        (Errno::ENOENT, 2),
        (Errno::EBADF, 9),
        (Errno::EFAULT, 14),
        (Errno::EINVAL, 22),
        (Errno::ENOSYS, 38),
        (Errno::EOVERFLOW, 75),
        (Errno::ETIMEDOUT, 110),
    ] {
        assert_eq!(errno.number(), number);
        assert_eq!(errno.as_return_value(), -i64::from(number));
        assert!(!errno.is_restart());
    }
    for (errno, number) in [
        (Errno::ERESTARTSYS, 512),
        (Errno::ERESTARTNOINTR, 513),
        (Errno::ERESTARTNOHAND, 514),
        (Errno::ERESTARTBLOCK, 516),
    ] {
        assert_eq!(errno.number(), number);
        assert!(errno.is_restart());
    }
}

fn segment(start: u64, bytes: Vec<u8>, writable: bool) -> Segment {
    Segment { start, bytes, writable, shared: None }
}

#[test]
fn check_copy_crosses_a_page_boundary() {
    let mut space = AddressSpace {
        id: 1,
        user_end: 0x8000_0000,
        segments: vec![
            segment(PAGE, vec![0; 4096], true),
            segment(PAGE + 4096, vec![0; 4096], true),
        ],
    };
    let at = PAGE + 4096 - 8;
    assert_eq!(space.copy_to_user(at, b"across the edge!"), Ok(()));
    assert_eq!(space.copy_from_user(at, 16), Ok(b"across the edge!".to_vec()));
    assert_eq!(space.segments[0].bytes[4088..], *b"across t");
    assert_eq!(space.segments[1].bytes[..8], *b"he edge!");
}

#[test]
fn check_a_user_pointer_into_the_kernel_is_refused() {
    let mut space = AddressSpace {
        id: 1,
        user_end: 0x8000_0000,
        segments: vec![segment(0x8000_0000 - 4096, vec![7; 4096], true)],
    };
    assert_eq!(space.copy_from_user(0x8000_0000, 1), Err(Errno::EFAULT));
    assert_eq!(space.copy_from_user(u64::MAX - 3, 8), Err(Errno::EFAULT));
    // A range that reaches over the edge is refused whole.
    assert_eq!(space.copy_to_user(0x8000_0000 - 4, &[0; 8]), Err(Errno::EFAULT));
    assert_eq!(space.copy_from_user(0x8000_0000 - 4, 4), Ok(vec![7; 4]));
}

#[test]
fn check_an_unmapped_address_is_efault_not_a_kernel_fault() {
    let space = AddressSpace { id: 1, user_end: 0x8000_0000, segments: Vec::new() };
    assert_eq!(space.copy_from_user(PAGE, 1), Err(Errno::EFAULT));
    assert_eq!(space.get_u32(PAGE), Err(Errno::EFAULT));
    assert!(!space.writable_range(PAGE, 1));
}

#[test]
fn check_a_c_string_stops_at_its_nul() {
    let space = AddressSpace {
        id: 1,
        user_end: 0x8000_0000,
        segments: vec![segment(PAGE, b"/bin/sh\0garbage".to_vec(), false)],
    };
    assert_eq!(
        space.copy_cstr_from_user(PAGE, 64),
        CString::Complete(b"/bin/sh".to_vec())
    );
    assert_eq!(space.copy_cstr_from_user(PAGE, 4), CString::TooLong);
    // The text after the last terminator runs off the mapping.
    assert_eq!(space.copy_cstr_from_user(PAGE + 8, 64), CString::Fault);
}

#[test]
fn a_read_only_mapping_is_read_and_not_written() {
    let mut space = AddressSpace {
        id: 1,
        user_end: 0x8000_0000,
        segments: vec![segment(PAGE, vec![1, 2, 3, 4], false)],
    };
    assert_eq!(space.get_u32(PAGE), Ok(0x0403_0201));
    assert_eq!(space.copy_to_user(PAGE, &[9]), Err(Errno::EFAULT));
    assert_eq!(space.get_number(PAGE + 1, 3), Ok(0x04_0302));
    assert_eq!(space.segments[0].bytes, vec![1, 2, 3, 4]);
}

#[test]
fn a_shared_mapping_names_its_object() {
    let space = AddressSpace {
        id: 1,
        user_end: 0x8000_0000,
        segments: vec![Segment {
            start: PAGE,
            bytes: vec![0; 64],
            writable: true,
            shared: Some(Backing { object: 5, offset: 4096 }),
        }],
    };
    let found = space.shared_object_at(PAGE + 12).unwrap();
    assert_eq!((found.object, found.offset), (5, 4108));
    assert!(space.shared_object_at(PAGE + 64).is_none());
}

#[test]
fn a_space_grows_by_segments_that_never_meet() {
    let mut space = AddressSpace::new(1, 0x8000_0000);
    assert!(space.add(segment(PAGE, vec![1; 16], true)));
    assert!(!space.add(segment(PAGE + 15, vec![2; 4], true)));
    assert!(!space.add(segment(PAGE - 1, vec![2; 32], true)));
    assert!(!space.add(segment(0x8000_0000 - 3, vec![2; 4], true)));
    assert!(!space.add(segment(u64::MAX - 1, vec![2; 4], true)));
    assert!(space.add(segment(PAGE + 16, vec![3; 4], false)));
    assert_eq!(space.copy_from_user(PAGE + 14, 4), Ok(vec![1, 1, 3, 3]));
    assert_eq!(space.copy_to_user(PAGE + 14, &[9; 4]), Err(Errno::EFAULT));
    assert!(space.is_sound());
    space.segments[1].start = PAGE + 8;
    assert!(!space.is_sound());
    space.segments[1].start = 0x8000_0000;
    assert!(!space.is_sound());
}

#[test]
fn what_is_written_is_read_back_and_nothing_else_changes() {
    let mut space = AddressSpace::new(1, 0x8000_0000);
    assert!(space.add(segment(PAGE, vec![7; 64], true)));
    assert_eq!(space.put_number(PAGE + 8, 0x0102_0304_0506_0708, 8), Ok(()));
    assert_eq!(space.get_number(PAGE + 8, 8), Ok(0x0102_0304_0506_0708));
    assert_eq!(space.copy_from_user(PAGE, 8), Ok(vec![7; 8]));
    assert_eq!(space.copy_from_user(PAGE + 16, 48), Ok(vec![7; 48]));
}
