//! Times a program hands over: `struct timespec`, as nanoseconds.

use vstd::prelude::*;

use crate::abi::{signed_32, signed_64, spec_signed_32, spec_signed_64};
use crate::bytes::{le_bytes, lemma_byte_spans, lemma_le_value_bound};
use crate::errno::Errno;
use crate::uaccess::{AddressSpace, Memory};

verus! {

/// Nanoseconds in a second.
pub const NANOS_PER_SECOND: u64 = 1_000_000_000;

/// The smaller of `v` and the largest 64-bit number.
pub open spec fn saturated(v: int) -> int {
    if v > u64::MAX {
        u64::MAX as int
    } else {
        v
    }
}

/// `a * b + c`, stopping at the largest 64-bit number.
pub fn saturating_mul_add(a: u64, b: u64, c: u64) -> (out: u64)
    ensures
        out == saturated(a * b + c),
{
    proof {
        assert(0 <= a * b <= u64::MAX * u64::MAX) by (nonlinear_arith)
            requires
                0 <= a <= u64::MAX,
                0 <= b <= u64::MAX,
        ;
    }
    let wide: u128 = (a as u128) * (b as u128) + (c as u128);
    if wide > u64::MAX as u128 {
        u64::MAX
    } else {
        wide as u64
    }
}

/// `field` bytes read as a signed number.
pub open spec fn spec_signed(v: int, field: nat) -> int {
    if field == 8 {
        spec_signed_64(v)
    } else {
        spec_signed_32(v)
    }
}

/// The signed field of `field` bytes at `at`.
pub open spec fn signed_field(m: Memory, at: int, field: nat) -> int {
    spec_signed(m.number(at, field) as int, field)
}

/// What a `timespec` of two `field`-byte numbers at `at` says, in nanoseconds:
/// unreadable, malformed, or a length of time.
pub open spec fn spec_timespec(m: Memory, at: int, field: nat) -> Result<u64, Errno> {
    let seconds = signed_field(m, at, field);
    let nanos = signed_field(m, at + field, field);
    if !m.can_read(at, 2 * field as int) {
        Err(Errno::EFAULT)
    } else if seconds < 0 || nanos < 0 || nanos >= NANOS_PER_SECOND {
        Err(Errno::EINVAL)
    } else {
        Ok(saturated(seconds * NANOS_PER_SECOND + nanos) as u64)
    }
}

/// Read one signed field.
pub fn get_signed(space: &AddressSpace, at: u64, field: usize) -> (value: Result<i64, Errno>)
    requires
        space.wf(),
        field == 4 || field == 8,
    ensures
        match value {
            Ok(v) => space@.can_read(at as int, field as int) && v == signed_field(
                space@,
                at as int,
                field as nat,
            ),
            Err(e) => !space@.can_read(at as int, field as int) && e == Errno::EFAULT,
        },
{
    let raw: u64 = space.get_number(at, field)?;
    proof {
        lemma_byte_spans();
        lemma_le_value_bound(space@.read(at as int, field as nat));
    }
    if field == 8 {
        Ok(signed_64(raw))
    } else {
        Ok(signed_32(raw as u32) as i64)
    }
}

/// A range that can be read whole can be read in two parts.
pub proof fn lemma_can_read_split(m: Memory, at: int, first: int, second: int)
    requires
        0 <= first,
        0 <= second,
    ensures
        m.can_read(at, first + second) <==> m.can_read(at, first) && m.can_read(
            at + first,
            second,
        ),
{
    if m.can_read(at, first) && m.can_read(at + first, second) {
        assert forall|a: int| at <= a < at + first + second implies #[trigger] m.bytes.dom().contains(
            a,
        ) by {}
    }
}

/// Writing `a` at `at` and then `b` right behind it is writing both at once.
pub proof fn lemma_store_append(m: Memory, at: int, a: Seq<u8>, b: Seq<u8>)
    ensures
        m.store(at, a).store(at + a.len(), b) == m.store(at, a + b),
{
    let two = m.store(at, a).store(at + a.len(), b);
    let one = m.store(at, a + b);
    assert(m.store(at, a).bytes.dom() =~= m.bytes.dom());
    assert(two.bytes.dom() =~= one.bytes.dom());
    assert forall|x: int| #[trigger] two.bytes.dom().contains(x) implies two.bytes[x]
        == one.bytes[x] by {
        assert(m.store(at, a).bytes.dom().contains(x));
        assert(m.bytes.dom().contains(x));
    }
    assert(two.bytes =~= one.bytes);
    assert(two =~= one);
}

/// Read a `struct timespec` of two `field`-byte numbers as nanoseconds.
///
/// `EFAULT` for one that cannot be read; `EINVAL` for a negative time or a
/// nanosecond count of a second or more.
pub fn read_timespec(space: &AddressSpace, at: u64, field: usize) -> (nanos: Result<u64, Errno>)
    requires
        space.wf(),
        field == 4 || field == 8,
    ensures
        nanos == spec_timespec(space@, at as int, field as nat),
{
    proof {
        lemma_can_read_split(space@, at as int, field as int, field as int);
    }
    let seconds: i64 = get_signed(space, at, field)?;
    if at > u64::MAX - field as u64 {
        proof {
            space.lemma_unmapped_above(at + field);
            assert(!space@.bytes.dom().contains(at + field));
        }
        return Err(Errno::EFAULT);
    }
    let nanos: i64 = get_signed(space, at + field as u64, field)?;
    if seconds < 0 || nanos < 0 || nanos >= 1_000_000_000 {
        return Err(Errno::EINVAL);
    }
    Ok(saturating_mul_add(seconds as u64, NANOS_PER_SECOND, nanos as u64))
}

/// Write two `field`-byte numbers, one behind the other, at `at`.
///
/// `EFAULT`, with nothing written, unless both can be.
pub fn write_pair(
    space: &mut AddressSpace,
    at: u64,
    first: u64,
    second: u64,
    field: usize,
) -> (done: Result<(), Errno>)
    requires
        old(space).wf(),
        field == 4 || field == 8,
    ensures
        final(space).wf(),
        final(space).same_layout(*old(space)),
        match done {
            Ok(_) => old(space)@.can_write(at as int, 2 * field as int) && final(space)@ == old(space)@.store(
                at as int,
                le_bytes(first as nat, field as nat) + le_bytes(second as nat, field as nat),
            ),
            Err(e) => !old(space)@.can_write(at as int, 2 * field as int) && e == Errno::EFAULT
                && *final(space) == *old(space),
        },
{
    let mut bytes = crate::bytes::le_encode(first, field);
    let mut rest = crate::bytes::le_encode(second, field);
    bytes.append(&mut rest);
    space.copy_to_user(at, bytes.as_slice())
}

/// A time is read as seconds and then nanoseconds of the width asked, and is
/// that many nanoseconds in all; one that is negative, or has a second's worth
/// of nanoseconds or more, is none.
pub proof fn law_a_timespec_is_its_nanoseconds(m: Memory, at: int)
    requires
        m.number(at, 8) <= 0x7FFF_FFFF_FFFF_FFFF,
        m.number(at + 8, 8) <= 0x7FFF_FFFF_FFFF_FFFF,
    ensures
        ({
            let nanos = spec_timespec(m, at, 8);
            let total = m.number(at, 8) * 1_000_000_000 + m.number(at + 8, 8);
            &&& !m.can_read(at, 16) ==> nanos == Err::<u64, Errno>(Errno::EFAULT)
            &&& m.can_read(at, 16) ==> (nanos is Ok <==> m.number(at + 8, 8) < 1_000_000_000)
            &&& m.can_read(at, 16) && nanos is Err ==> nanos == Err::<u64, Errno>(Errno::EINVAL)
            &&& nanos matches Ok(n) ==> (total <= u64::MAX ==> n == total) && (total > u64::MAX
                ==> n == u64::MAX)
        }),
{
}

/// A negative time is none, and neither is one with negative nanoseconds.
pub proof fn law_a_negative_time_is_none(m: Memory, at: int, field: nat)
    requires
        field == 4 || field == 8,
        m.can_read(at, 2 * field as int),
    ensures
        field == 8 && (m.number(at, 8) >= 0x8000_0000_0000_0000 || m.number(at + 8, 8)
            >= 0x8000_0000_0000_0000) ==> spec_timespec(m, at, field) == Err::<u64, Errno>(
            Errno::EINVAL,
        ),
        field == 4 && (m.number(at, 4) >= 0x8000_0000 || m.number(at + 4, 4) >= 0x8000_0000)
            ==> spec_timespec(m, at, field) == Err::<u64, Errno>(Errno::EINVAL),
        field == 4 && m.number(at, 4) < 0x8000_0000 && m.number(at + 4, 4) < 1_000_000_000
            ==> spec_timespec(m, at, field) == Ok::<u64, Errno>(
            (m.number(at, 4) * 1_000_000_000 + m.number(at + 4, 4)) as u64,
        ),
{
    crate::bytes::lemma_byte_spans();
    crate::bytes::lemma_le_value_bound(m.read(at, field));
    crate::bytes::lemma_le_value_bound(m.read(at + field, field));
}

} // verus!
