//! What the calling convention fixes: the machines, their word, and how a
//! register becomes an argument.

use vstd::prelude::*;

verus! {

/// A machine programs are built for.
#[derive(Clone, Copy, Debug, PartialEq, Eq, Structural)]
pub enum Arch {
    /// x86-64.
    X86_64,
    /// AArch64.
    Aarch64,
    /// ARMv7-A, the 32-bit one.
    Arm,
}

impl Arch {
    /// Bytes in a native word.
    pub open spec fn spec_word(self) -> nat {
        match self {
            Arch::Arm => 4,
            _ => 8,
        }
    }

    /// Bytes in a native word.
    pub fn word(self) -> (n: usize)
        ensures
            n == self.spec_word(),
    {
        match self {
            Arch::Arm => 4,
            _ => 8,
        }
    }
}

impl Arch {
    /// The largest number a return register holds as a non-negative value.
    pub open spec fn spec_most(self) -> int {
        match self {
            Arch::Arm => 0x7FFF_FFFF,
            _ => 0x7FFF_FFFF_FFFF_FFFF,
        }
    }

    /// The largest number a return register holds as a non-negative value.
    pub fn most(self) -> (n: u64)
        ensures
            n == self.spec_most(),
    {
        match self {
            Arch::Arm => 0x7FFF_FFFF,
            _ => 0x7FFF_FFFF_FFFF_FFFF,
        }
    }
}

/// How wide the fields of a time structure are.
#[derive(Clone, Copy, Debug, PartialEq, Eq, Structural)]
pub enum TimeWidth {
    /// The machine's word.
    Native,
    /// 64 bits on every machine.
    Wide,
}

impl TimeWidth {
    /// Bytes in one field.
    pub open spec fn spec_field(self, arch: Arch) -> nat {
        match self {
            TimeWidth::Native => arch.spec_word(),
            TimeWidth::Wide => 8,
        }
    }

    /// Bytes in one field.
    pub fn field(self, arch: Arch) -> (n: usize)
        ensures
            n == self.spec_field(arch),
            n == 4 || n == 8,
    {
        match self {
            TimeWidth::Native => arch.word(),
            TimeWidth::Wide => 8,
        }
    }
}

/// The low 32 bits of a register.
pub open spec fn spec_low_u32(v: int) -> int {
    v % 0x1_0000_0000
}

/// 32 bits read as a signed number.
pub open spec fn spec_signed_32(v: int) -> int {
    if v < 0x8000_0000 {
        v
    } else {
        v - 0x1_0000_0000
    }
}

/// 64 bits read as a signed number.
pub open spec fn spec_signed_64(v: int) -> int {
    if v < 0x8000_0000_0000_0000 {
        v
    } else {
        v - 0x1_0000_0000_0000_0000
    }
}

/// A register read as a C `int`.
pub open spec fn spec_int(v: int) -> int {
    spec_signed_32(spec_low_u32(v))
}

/// The low 32 bits of a register: a C `unsigned int` argument.
pub fn low_u32(v: u64) -> (out: u32)
    ensures
        out == spec_low_u32(v as int),
{
    (v % 0x1_0000_0000) as u32
}

/// 32 bits read as a signed number.
pub fn signed_32(v: u32) -> (out: i32)
    ensures
        out == spec_signed_32(v as int),
{
    if v < 0x8000_0000 {
        v as i32
    } else {
        (v as i64 - 0x1_0000_0000) as i32
    }
}

/// 64 bits read as a signed number.
pub fn signed_64(v: u64) -> (out: i64)
    ensures
        out == spec_signed_64(v as int),
{
    if v < 0x8000_0000_0000_0000 {
        v as i64
    } else {
        (v as i128 - 0x1_0000_0000_0000_0000) as i64
    }
}

/// The bits of a signed 32-bit number.
pub fn bits_32(v: i32) -> (out: u32)
    ensures
        spec_signed_32(out as int) == v,
        out == if v < 0 {
            v + 0x1_0000_0000
        } else {
            v as int
        },
{
    if v >= 0 {
        v as u32
    } else {
        (v as i64 + 0x1_0000_0000) as u32
    }
}

/// A machine's word, and the widths of what goes with it: four bytes on the
/// 32-bit machine, and eight on the others; a wide time is eight on all.
pub proof fn law_a_word_is_as_wide_as_the_machine(arch: Arch)
    ensures
        arch.spec_word() == 4 <==> arch == Arch::Arm,
        arch.spec_word() == 8 <==> arch != Arch::Arm,
        arch == Arch::Arm ==> arch.spec_most() == 0x7FFF_FFFF,
        arch != Arch::Arm ==> arch.spec_most() == 0x7FFF_FFFF_FFFF_FFFF,
        TimeWidth::Native.spec_field(arch) == arch.spec_word(),
        TimeWidth::Wide.spec_field(arch) == 8,
{
}

/// A number read out of a register keeps its bits: what is left out is whole
/// multiples of the width, and a signed number is in its range.
pub proof fn law_a_narrowed_number_keeps_its_bits(v: int)
    requires
        0 <= v <= 0xFFFF_FFFF_FFFF_FFFF,
    ensures
        0 <= spec_low_u32(v) <= 0xFFFF_FFFF,
        (v - spec_low_u32(v)) % 0x1_0000_0000 == 0,
        -0x8000_0000 <= spec_int(v) <= 0x7FFF_FFFF,
        (v - spec_int(v)) % 0x1_0000_0000 == 0,
        -0x8000_0000_0000_0000 <= spec_signed_64(v) <= 0x7FFF_FFFF_FFFF_FFFF,
        (v - spec_signed_64(v)) % 0x1_0000_0000_0000_0000 == 0,
        v <= 0xFFFF_FFFF ==> -0x8000_0000 <= spec_signed_32(v) <= 0x7FFF_FFFF && (v
            - spec_signed_32(v)) % 0x1_0000_0000 == 0,
        v <= 0x7FFF_FFFF ==> spec_int(v) == v,
{
}

} // verus!
