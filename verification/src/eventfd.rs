//! `eventfd2` and `eventfd`.

use vstd::prelude::*;

use crate::errno::Errno;

verus! {

/// A read takes one from the counter rather than all of it.
pub const EFD_SEMAPHORE: u32 = 1;

/// Neither reads nor writes wait.
pub const EFD_NONBLOCK: u32 = 0x800;

/// `execve` closes it.
pub const EFD_CLOEXEC: u32 = 0x8_0000;

/// A counter to make, and how its descriptor is to be.
#[derive(Clone, Copy, Debug, PartialEq, Eq, Structural)]
pub struct Counter {
    /// What it holds at first.
    pub initial: u32,
    /// Whether a read takes one rather than all.
    pub semaphore: bool,
    /// Whether neither reads nor writes wait.
    pub nonblock: bool,
    /// Whether `execve` closes the descriptor.
    pub cloexec: bool,
}

/// The counter a call asks for; `EINVAL` for an unknown flag.
pub open spec fn spec_eventfd(initial: u32, flags: u32) -> Result<Counter, Errno> {
    if flags & !(EFD_CLOEXEC | EFD_NONBLOCK | EFD_SEMAPHORE) != 0 {
        Err(Errno::EINVAL)
    } else {
        Ok(
            Counter {
                initial,
                semaphore: flags & EFD_SEMAPHORE != 0,
                nonblock: flags & EFD_NONBLOCK != 0,
                cloexec: flags & EFD_CLOEXEC != 0,
            },
        )
    }
}

/// `eventfd2`: a counter holding `initial`. It ends in
/// [`crate::fd::name_new`].
///
/// `EINVAL` for a flag other than the three.
pub fn sys_eventfd2(initial: u32, flags: u32) -> (counter: Result<Counter, Errno>)
    ensures
        counter == spec_eventfd(initial, flags),
{
    if flags & !(EFD_CLOEXEC | EFD_NONBLOCK | EFD_SEMAPHORE) != 0 {
        return Err(Errno::EINVAL);
    }
    Ok(
        Counter {
            initial,
            semaphore: flags & EFD_SEMAPHORE != 0,
            nonblock: flags & EFD_NONBLOCK != 0,
            cloexec: flags & EFD_CLOEXEC != 0,
        },
    )
}

/// `eventfd`, the older call: no flags.
pub fn sys_eventfd(initial: u32) -> (counter: Result<Counter, Errno>)
    ensures
        counter == Ok::<Counter, Errno>(
            Counter { initial, semaphore: false, nonblock: false, cloexec: false },
        ),
{
    proof {
        assert(0u32 & !(EFD_CLOEXEC | EFD_NONBLOCK | EFD_SEMAPHORE) == 0) by (bit_vector);
        assert(0u32 & EFD_SEMAPHORE == 0 && 0u32 & EFD_NONBLOCK == 0 && 0u32 & EFD_CLOEXEC == 0)
            by (bit_vector);
    }
    sys_eventfd2(initial, 0)
}

/// A counter starts with what it was given, and is as its flags say, each bit
/// for itself; a flag there is not is refused.
pub proof fn law_a_counter_is_what_was_asked(initial: u32, flags: u32)
    ensures
        spec_eventfd(initial, flags) is Ok <==> flags & 0xFFF7_F7FE == 0,
        spec_eventfd(initial, flags) matches Err(e) ==> e == Errno::EINVAL,
        spec_eventfd(initial, flags) matches Ok(counter) ==> {
            &&& counter.initial == initial
            &&& counter.semaphore <==> flags & 1 != 0
            &&& counter.nonblock <==> flags & 0x800 != 0
            &&& counter.cloexec <==> flags & 0x8_0000 != 0
        },
{
    assert(!(0x8_0000u32 | 0x800u32 | 1u32) == 0xFFF7_F7FEu32) by (bit_vector);
}

} // verus!
