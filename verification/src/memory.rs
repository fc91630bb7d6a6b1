//! `mmap`, `munmap`, `mprotect`, `mremap`, `msync` and `brk`.
//!
//! What these calls decide: how a request is rounded, what is refused and in
//! which order, and what is asked of the address space. Each call comes in two
//! parts, the request to the address space and the answer to the program once
//! the address space has said what came of it.

use vstd::prelude::*;

use crate::abi::Arch;
use crate::errno::Errno;
use crate::fd::{arg, file, named, spec_file, FdTable, OpenFile};
use crate::load::{SpaceError, VmaFlags, PAGE_SIZE};

verus! {

/// Pages can be read.
pub const PROT_READ: u32 = 1;

/// Pages can be written.
pub const PROT_WRITE: u32 = 2;

/// Pages can be run.
pub const PROT_EXEC: u32 = 4;

/// Accepted, and means nothing.
pub const PROT_SEM: u32 = 8;

/// Extend the change to the start of a region that grows down.
pub const PROT_GROWSDOWN: u32 = 0x100_0000;

/// Extend the change to the end of a region that grows up.
pub const PROT_GROWSUP: u32 = 0x200_0000;

/// Writes are seen by everyone who maps the same pages.
pub const MAP_SHARED: u32 = 1;

/// Writes are the mapping's own.
pub const MAP_PRIVATE: u32 = 2;

/// The address is where the mapping goes, whatever is there.
pub const MAP_FIXED: u32 = 0x10;

/// There is no file.
pub const MAP_ANONYMOUS: u32 = 0x20;

/// The address is where the mapping goes, if nothing is there.
pub const MAP_FIXED_NOREPLACE: u32 = 0x10_0000;

/// The mapping may move.
pub const MREMAP_MAYMOVE: u32 = 1;

/// The mapping moves to the address given.
pub const MREMAP_FIXED: u32 = 2;

/// Write back some time.
pub const MS_ASYNC: u32 = 1;

/// Drop other copies.
pub const MS_INVALIDATE: u32 = 2;

/// Write back now.
pub const MS_SYNC: u32 = 4;

/// The seals that stop writes.
pub const WRITE_SEALS: u32 = 0x18;

/// Nothing is mapped below this.
pub const MMAP_MIN_ADDR: u64 = 0x1_0000;

/// What `mmap`'s sixth argument is counted in.
#[derive(Clone, Copy, Debug, PartialEq, Eq, Structural)]
pub enum OffsetUnit {
    /// `mmap`: bytes.
    Bytes,
    /// `mmap2`: 4096-byte units, because a 32-bit register cannot carry a file
    /// offset in bytes.
    Pages,
}

// ---------------------------------------------------------------------------
// Rounding, protection, refusals
// ---------------------------------------------------------------------------

/// The region flags of `PROT_*`; `EINVAL` for an unknown bit. No bit at all is
/// no access at all.
pub open spec fn spec_protection(prot: u32) -> Result<VmaFlags, Errno> {
    if prot & !(PROT_READ | PROT_WRITE | PROT_EXEC) != 0 {
        Err(Errno::EINVAL)
    } else {
        Ok(
            VmaFlags {
                read: prot & PROT_READ != 0,
                write: prot & PROT_WRITE != 0,
                execute: prot & PROT_EXEC != 0,
                shared: false,
            },
        )
    }
}

/// The region flags of `PROT_*`.
pub fn protection(prot: u32) -> (flags: Result<VmaFlags, Errno>)
    ensures
        flags == spec_protection(prot),
{
    if prot & !(PROT_READ | PROT_WRITE | PROT_EXEC) != 0 {
        return Err(Errno::EINVAL);
    }
    Ok(
        VmaFlags {
            read: prot & PROT_READ != 0,
            write: prot & PROT_WRITE != 0,
            execute: prot & PROT_EXEC != 0,
            shared: false,
        },
    )
}

/// A page nobody asked to touch is not widened into one somebody can.
pub proof fn law_no_protection_is_no_access()
    ensures
        spec_protection(0) == Ok::<VmaFlags, Errno>(
            VmaFlags { read: false, write: false, execute: false, shared: false },
        ),
{
    assert(0u32 & !(PROT_READ | PROT_WRITE | PROT_EXEC) == 0) by (bit_vector);
    assert(0u32 & PROT_READ == 0 && 0u32 & PROT_WRITE == 0 && 0u32 & PROT_EXEC == 0) by (bit_vector);
}

/// What the address space refuses, as the program sees it.
pub open spec fn spec_refused(error: SpaceError) -> Errno {
    match error {
        SpaceError::OutOfMemory => Errno::ENOMEM,
        SpaceError::Backing => Errno::ENOMEM,
        SpaceError::Unreadable => Errno::EIO,
        SpaceError::NotUserRange => Errno::EINVAL,
        SpaceError::BadRange => Errno::EINVAL,
        SpaceError::NotMapped => Errno::EFAULT,
        SpaceError::Refused => Errno::EFAULT,
        SpaceError::PastEnd => Errno::EFAULT,
    }
}

/// What the address space refuses, as the program sees it.
pub fn refused(error: SpaceError) -> (errno: Errno)
    ensures
        errno == spec_refused(error),
{
    match error {
        SpaceError::OutOfMemory => Errno::ENOMEM,
        SpaceError::Backing => Errno::ENOMEM,
        SpaceError::Unreadable => Errno::EIO,
        SpaceError::NotUserRange => Errno::EINVAL,
        SpaceError::BadRange => Errno::EINVAL,
        SpaceError::NotMapped => Errno::EFAULT,
        SpaceError::Refused => Errno::EFAULT,
        SpaceError::PastEnd => Errno::EFAULT,
    }
}

/// A length in whole pages.
pub open spec fn whole_pages(len: int) -> int {
    ((len + PAGE_SIZE - 1) / PAGE_SIZE as int) * PAGE_SIZE
}

/// A length rounded up to a whole number of pages: `EINVAL` for none at all,
/// `ENOMEM` for one that does not fit once rounded.
pub open spec fn spec_pages_for(len: u64) -> Result<u64, Errno> {
    if len == 0 {
        Err(Errno::EINVAL)
    } else if len + PAGE_SIZE - 1 > u64::MAX {
        Err(Errno::ENOMEM)
    } else {
        Ok(whole_pages(len as int) as u64)
    }
}

/// A length rounded up to a whole number of pages.
pub fn pages_for(len: u64) -> (rounded: Result<u64, Errno>)
    ensures
        rounded == spec_pages_for(len),
        match rounded {
            Ok(r) => r == whole_pages(len as int) && r >= len && r % PAGE_SIZE == 0 && r > 0,
            Err(_) => true,
        },
{
    if len == 0 {
        return Err(Errno::EINVAL);
    }
    if len > u64::MAX - (PAGE_SIZE - 1) {
        return Err(Errno::ENOMEM);
    }
    Ok(((len + (PAGE_SIZE - 1)) / PAGE_SIZE) * PAGE_SIZE)
}

/// A rounded length is the smallest number of whole pages that holds the
/// length: never less, and never a page more.
pub proof fn law_rounding_is_tight(len: u64)
    ensures
        match spec_pages_for(len) {
            Ok(rounded) => rounded % PAGE_SIZE == 0 && len <= rounded < len + PAGE_SIZE,
            Err(_) => len == 0 || len > u64::MAX - (PAGE_SIZE - 1),
        },
{
}

/// An address as the return register carries it.
pub fn usize_of(address: u64) -> (out: usize)
    ensures
        out == if address <= usize::MAX {
            address as int
        } else {
            usize::MAX as int
        },
{
    if address as u128 <= usize::MAX as u128 {
        address as usize
    } else {
        usize::MAX
    }
}

/// What [`usize_of`] makes of an address.
pub open spec fn spec_usize_of(address: u64) -> usize {
    if address <= usize::MAX {
        address as usize
    } else {
        usize::MAX
    }
}

/// The answer of a call that asked the address space for an address.
pub open spec fn spec_answered(outcome: Result<u64, SpaceError>) -> Result<usize, Errno> {
    match outcome {
        Ok(at) => Ok(spec_usize_of(at)),
        Err(e) => Err(spec_refused(e)),
    }
}

/// The answer of `mmap` or `mremap`, once the address space has said where the
/// mapping is, or why there is none.
pub fn answered(outcome: Result<u64, SpaceError>) -> (result: Result<usize, Errno>)
    ensures
        result == spec_answered(outcome),
{
    match outcome {
        Ok(at) => Ok(usize_of(at)),
        Err(e) => Err(refused(e)),
    }
}

// ---------------------------------------------------------------------------
// mmap
// ---------------------------------------------------------------------------

/// `mmap`'s arguments.
#[derive(Clone, Copy, Debug, PartialEq, Eq, Structural)]
pub struct MmapRequest {
    /// Where the program wants it; a hint unless it is fixed.
    pub addr: u64,
    /// How many bytes, before rounding.
    pub len: u64,
    /// `PROT_*`.
    pub prot: u32,
    /// `MAP_*`.
    pub flags: u32,
    /// The file to map. Ignored for anonymous memory.
    pub fd: i64,
    /// The offset into that file, in `unit`s.
    pub offset: u64,
    /// What `offset` is counted in.
    pub unit: OffsetUnit,
}

/// Where a mapping goes.
#[derive(Clone, Copy, Debug, PartialEq, Eq)]
pub enum Place {
    /// Wherever there is room, near the hint if there is one.
    Anywhere(Option<u64>),
    /// Here, once what is here has been unmapped if asked.
    Fixed { at: u64, clear: bool },
}

/// Where a mapping asked for at `addr` with `flags` goes.
///
/// Without a fixed address it is a hint. A fixed one is `EINVAL` off a page
/// boundary and `EPERM` below [`MMAP_MIN_ADDR`]; a plain fixed one replaces
/// whatever is there.
pub open spec fn spec_place(addr: u64, flags: u32) -> Result<Place, Errno> {
    if flags & (MAP_FIXED | MAP_FIXED_NOREPLACE) == 0 {
        Ok(
            Place::Anywhere(
                if addr != 0 {
                    Some(addr)
                } else {
                    None
                },
            ),
        )
    } else if addr % PAGE_SIZE != 0 {
        Err(Errno::EINVAL)
    } else if addr < MMAP_MIN_ADDR {
        Err(Errno::EPERM)
    } else {
        Ok(Place::Fixed { at: addr, clear: flags & MAP_FIXED_NOREPLACE == 0 })
    }
}

/// Where a mapping goes. Asked once everything else about the call has been
/// checked, because clearing what is there is the one step that changes the
/// address space.
pub fn place(addr: u64, flags: u32) -> (at: Result<Place, Errno>)
    ensures
        at == spec_place(addr, flags),
{
    if flags & (MAP_FIXED | MAP_FIXED_NOREPLACE) == 0 {
        return Ok(
            Place::Anywhere(
                if addr != 0 {
                    Some(addr)
                } else {
                    None
                },
            ),
        );
    }
    if addr % PAGE_SIZE != 0 {
        return Err(Errno::EINVAL);
    }
    if addr < MMAP_MIN_ADDR {
        return Err(Errno::EPERM);
    }
    Ok(Place::Fixed { at: addr, clear: flags & MAP_FIXED_NOREPLACE == 0 })
}

/// The largest number a native word holds.
pub open spec fn spec_word_most(arch: Arch) -> int {
    match arch {
        Arch::Arm => 0xFFFF_FFFF,
        _ => u64::MAX as int,
    }
}

/// The largest number a native word holds.
fn word_most(arch: Arch) -> (most: u64)
    ensures
        most == spec_word_most(arch),
{
    match arch {
        Arch::Arm => 0xFFFF_FFFF,
        _ => u64::MAX,
    }
}

/// What a request says once its arguments have been checked.
#[derive(Clone, Copy, Debug, PartialEq, Eq, Structural)]
pub struct Checked {
    /// How many bytes, in whole pages.
    pub len: u64,
    /// What may be done with them.
    pub vma: VmaFlags,
    /// The offset, in pages.
    pub page_offset: u64,
}

/// What a request says, or why it is refused: an unknown protection, a length
/// that cannot be rounded, not exactly one of shared and private, a byte
/// offset off a page boundary, and an offset whose pages would wrap.
pub open spec fn spec_checked(r: MmapRequest, arch: Arch) -> Result<Checked, Errno> {
    match spec_protection(r.prot) {
        Err(e) => Err(e),
        Ok(vma) => match spec_pages_for(r.len) {
            Err(e) => Err(e),
            Ok(len) => {
                let shared = r.flags & MAP_SHARED != 0;
                let page_offset = if r.unit == OffsetUnit::Bytes {
                    r.offset / PAGE_SIZE
                } else {
                    r.offset
                };
                if shared == (r.flags & MAP_PRIVATE != 0) {
                    Err(Errno::EINVAL)
                } else if r.unit == OffsetUnit::Bytes && r.offset % PAGE_SIZE != 0 {
                    Err(Errno::EINVAL)
                } else if page_offset > spec_word_most(arch) {
                    Err(Errno::EOVERFLOW)
                } else if len / PAGE_SIZE > spec_word_most(arch) {
                    Err(Errno::ENOMEM)
                } else if page_offset + len / PAGE_SIZE > spec_word_most(arch) {
                    Err(Errno::EOVERFLOW)
                } else {
                    Ok(Checked { len, vma: VmaFlags { shared, ..vma }, page_offset })
                }
            },
        },
    }
}

/// Check a request's arguments.
fn check_request(r: &MmapRequest, arch: Arch) -> (checked: Result<Checked, Errno>)
    ensures
        checked == spec_checked(*r, arch),
{
    let mut vma = protection(r.prot)?;
    let len: u64 = pages_for(r.len)?;
    let shared = r.flags & MAP_SHARED != 0;
    if shared == (r.flags & MAP_PRIVATE != 0) {
        return Err(Errno::EINVAL);
    }
    vma.shared = shared;
    let page_offset: u64 = match r.unit {
        OffsetUnit::Bytes => {
            if r.offset % PAGE_SIZE != 0 {
                return Err(Errno::EINVAL);
            }
            r.offset / PAGE_SIZE
        },
        OffsetUnit::Pages => r.offset,
    };
    let most: u64 = word_most(arch);
    if page_offset > most {
        return Err(Errno::EOVERFLOW);
    }
    let pages: u64 = len / PAGE_SIZE;
    if pages > most {
        return Err(Errno::ENOMEM);
    }
    if pages > most - page_offset {
        return Err(Errno::EOVERFLOW);
    }
    Ok(Checked { len, vma, page_offset })
}

/// What `mmap` asks of the address space.
#[derive(Clone, Copy, Debug, PartialEq, Eq)]
pub enum Mapping {
    /// Fresh memory.
    Anonymous { at: Place, len: u64, vma: VmaFlags },
    /// The pages of an open file, and whether the mapping may ever write them.
    File { at: Place, len: u64, vma: VmaFlags, file: usize, offset: u64, may_write: bool },
}

/// Whether seals stop writes.
pub open spec fn write_sealed(seals: u32) -> bool {
    seals & WRITE_SEALS != 0
}

/// What mapping the file a descriptor names comes to.
///
/// A descriptor that names nothing, or only a path, is `EBADF`; one not open
/// for reading is `EACCES`, and so is a shared writable mapping of one not
/// open for writing; a file with no pages to map is `ENODEV`; a shared
/// writable mapping of a sealed file is `EPERM`.
pub open spec fn spec_map_file(
    table: FdTable,
    open: Seq<OpenFile>,
    descriptor: int,
    addr: u64,
    len: u64,
    flags: u32,
    vma: VmaFlags,
    offset: u64,
) -> Result<Mapping, Errno> {
    match spec_file(table, open, descriptor) {
        Err(_) => Err(Errno::EBADF),
        Ok(file) => {
            let sealed = write_sealed(file.seals);
            if file.path_only {
                Err(Errno::EBADF)
            } else if !file.readable || (vma.shared && vma.write && !file.writable) {
                Err(Errno::EACCES)
            } else if !file.mappable {
                Err(Errno::ENODEV)
            } else if vma.shared && vma.write && sealed {
                Err(Errno::EPERM)
            } else {
                match spec_place(addr, flags) {
                    Err(e) => Err(e),
                    Ok(at) => Ok(
                        Mapping::File {
                            at,
                            len,
                            vma,
                            file: table@[descriptor].file,
                            offset,
                            may_write: vma.shared && file.writable && !sealed,
                        },
                    ),
                }
            }
        },
    }
}

/// Map the file a descriptor names.
fn map_file(
    table: &FdTable,
    open: &Vec<OpenFile>,
    descriptor: i32,
    addr: u64,
    len: u64,
    flags: u32,
    vma: VmaFlags,
    offset: u64,
) -> (mapping: Result<Mapping, Errno>)
    requires
        named(*table, open@.len()),
    ensures
        mapping == spec_map_file(
            *table,
            open@,
            descriptor as int,
            addr,
            len,
            flags,
            vma,
            offset,
        ),
{
    let found = match file(table, open, descriptor) {
        Ok(found) => found,
        Err(_) => return Err(Errno::EBADF),
    };
    if found.path_only {
        return Err(Errno::EBADF);
    }
    if !found.readable || (vma.shared && vma.write && !found.writable) {
        return Err(Errno::EACCES);
    }
    if !found.mappable {
        return Err(Errno::ENODEV);
    }
    let sealed = found.seals & WRITE_SEALS != 0;
    if vma.shared && vma.write && sealed {
        return Err(Errno::EPERM);
    }
    let at = place(addr, flags)?;
    let k: usize = table.get(descriptor)?;
    Ok(
        Mapping::File {
            at,
            len,
            vma,
            file: k,
            offset,
            may_write: vma.shared && found.writable && !sealed,
        },
    )
}

/// What `mmap` asks of the address space, or why it is refused.
pub open spec fn spec_mmap(
    table: FdTable,
    open: Seq<OpenFile>,
    r: MmapRequest,
    arch: Arch,
) -> Result<Mapping, Errno> {
    match spec_checked(r, arch) {
        Err(e) => Err(e),
        Ok(checked) => if r.flags & MAP_ANONYMOUS != 0 {
            match spec_place(r.addr, r.flags) {
                Err(e) => Err(e),
                Ok(at) => Ok(Mapping::Anonymous { at, len: checked.len, vma: checked.vma }),
            }
        } else if checked.page_offset * PAGE_SIZE > u64::MAX {
            Err(Errno::EOVERFLOW)
        } else {
            spec_map_file(
                table,
                open,
                crate::abi::spec_int(spec_bits(r.fd)),
                r.addr,
                checked.len,
                r.flags,
                checked.vma,
                (checked.page_offset * PAGE_SIZE) as u64,
            )
        },
    }
}

/// The bits of a signed 64-bit number.
pub open spec fn spec_bits(v: i64) -> int {
    if v < 0 {
        v + 0x1_0000_0000_0000_0000
    } else {
        v as int
    }
}

/// The bits of a signed 64-bit number.
fn bits_64(v: i64) -> (out: u64)
    ensures
        out == spec_bits(v),
{
    if v >= 0 {
        v as u64
    } else {
        (v as i128 + 0x1_0000_0000_0000_0000) as u64
    }
}

/// `mmap` and `mmap2`: what to ask of the address space. The answer is
/// [`answered`], and for a file [`file_answered`].
///
/// An anonymous mapping's descriptor is ignored, and its offset once it is
/// whole pages.
pub fn sys_mmap(table: &FdTable, open: &Vec<OpenFile>, request: &MmapRequest, arch: Arch) -> (
    mapping: Result<Mapping, Errno>)
    requires
        named(*table, open@.len()),
    ensures
        mapping == spec_mmap(*table, open@, *request, arch),
{
    let checked = check_request(request, arch)?;
    if request.flags & MAP_ANONYMOUS != 0 {
        let at = place(request.addr, request.flags)?;
        return Ok(Mapping::Anonymous { at, len: checked.len, vma: checked.vma });
    }
    let offset: u64 = match checked.page_offset.checked_mul(PAGE_SIZE) {
        Some(offset) => offset,
        None => return Err(Errno::EOVERFLOW),
    };
    map_file(
        table,
        open,
        arg(bits_64(request.fd)),
        request.addr,
        checked.len,
        request.flags,
        checked.vma,
        offset,
    )
}

/// How a file mapping ends.
#[derive(Clone, Copy, Debug, PartialEq, Eq)]
pub enum FileMapped {
    /// With this answer.
    Answer(Result<usize, Errno>),
    /// With the mapping taken out again, and this error: the file was sealed
    /// against writes while it went in.
    Undo { at: u64, errno: Errno },
}

/// The end of mapping a file, once the address space has said where it is: a
/// second look at the seals. The mapping counted itself as it went in, so a
/// seal set before that is seen here, and one set after has seen the mapping
/// and refused itself.
pub fn file_answered(outcome: Result<u64, SpaceError>, may_write: bool, seals: u32) -> (end:
    FileMapped)
    ensures
        end == match outcome {
            Ok(at) if may_write && write_sealed(seals) => FileMapped::Undo {
                at,
                errno: Errno::EPERM,
            },
            other => FileMapped::Answer(spec_answered(other)),
        },
{
    match outcome {
        Ok(at) => if may_write && seals & WRITE_SEALS != 0 {
            FileMapped::Undo { at, errno: Errno::EPERM }
        } else {
            FileMapped::Answer(Ok(usize_of(at)))
        },
        Err(e) => FileMapped::Answer(Err(refused(e))),
    }
}

/// A file sealed against writes is never mapped so that a write could reach
/// it: not shared and writable, and not so that it could be made so.
pub proof fn law_a_sealed_file_is_not_mapped_for_writing(
    table: FdTable,
    open: Seq<OpenFile>,
    r: MmapRequest,
    arch: Arch,
)
    requires
        named(table, open.len()),
    ensures
        match spec_mmap(table, open, r, arch) {
            Ok(Mapping::File { vma, file, may_write, .. }) => write_sealed(
                open[file as int].seals,
            ) ==> !(vma.shared && vma.write) && !may_write,
            _ => true,
        },
{
}

/// Nothing is asked for below [`MMAP_MIN_ADDR`], and a fixed mapping is asked
/// for exactly where the program said.
pub proof fn law_a_fixed_mapping_lands_where_asked(
    table: FdTable,
    open: Seq<OpenFile>,
    r: MmapRequest,
    arch: Arch,
)
    requires
        r.flags & (MAP_FIXED | MAP_FIXED_NOREPLACE) != 0,
    ensures
        match spec_mmap(table, open, r, arch) {
            Ok(Mapping::Anonymous { at, .. }) => at matches Place::Fixed { at, clear } && at
                == r.addr && at >= MMAP_MIN_ADDR && at % PAGE_SIZE == 0 && clear == (r.flags
                & MAP_FIXED_NOREPLACE == 0),
            Ok(Mapping::File { at, .. }) => at matches Place::Fixed { at, clear } && at == r.addr
                && at >= MMAP_MIN_ADDR && at % PAGE_SIZE == 0 && clear == (r.flags
                & MAP_FIXED_NOREPLACE == 0),
            Err(_) => true,
        },
{
}

// ---------------------------------------------------------------------------
// munmap and mprotect
// ---------------------------------------------------------------------------

/// `munmap`: how much to unmap at `addr`. Unmapping a range that is only
/// partly mapped is no error.
///
/// `EINVAL` for an address off a page boundary or no length, `ENOMEM` for a
/// length that cannot be rounded.
pub fn sys_munmap(addr: u64, len: u64) -> (range: Result<u64, Errno>)
    ensures
        range == if addr % PAGE_SIZE != 0 {
            Err::<u64, Errno>(Errno::EINVAL)
        } else {
            spec_pages_for(len)
        },
{
    if addr % PAGE_SIZE != 0 {
        return Err(Errno::EINVAL);
    }
    pages_for(len)
}

/// The answer of `munmap`, once the address space has said what came of it.
pub fn unmapped(outcome: Result<(), SpaceError>) -> (result: Result<usize, Errno>)
    ensures
        result == match outcome {
            Ok(_) => Ok::<usize, Errno>(0),
            Err(e) => Err(spec_refused(e)),
        },
{
    match outcome {
        Ok(_) => Ok(0),
        Err(e) => Err(refused(e)),
    }
}

/// What `mprotect` asks of the address space.
#[derive(Clone, Copy, Debug, PartialEq, Eq, Structural)]
pub enum Protecting {
    /// Nothing: the length was zero.
    Nothing,
    /// To change this many bytes to this.
    Change { len: u64, vma: VmaFlags },
}

/// What `mprotect` asks of the address space, or why it is refused.
///
/// The order decides which error a bad call gets: both growth flags, then
/// alignment, then no length, which succeeds before the protection is looked
/// at, then the rounding, then the protection, then one growth flag.
pub open spec fn spec_mprotect(addr: u64, len: u64, prot: u32) -> Result<Protecting, Errno> {
    let grows = PROT_GROWSDOWN | PROT_GROWSUP;
    if prot & grows == grows || addr % PAGE_SIZE != 0 {
        Err(Errno::EINVAL)
    } else if len == 0 {
        Ok(Protecting::Nothing)
    } else {
        match spec_pages_for(len) {
            Err(e) => Err(e),
            Ok(len) => match spec_protection(prot & !(PROT_SEM | grows)) {
                Err(e) => Err(e),
                Ok(vma) => if prot & grows != 0 {
                    Err(Errno::EINVAL)
                } else {
                    Ok(Protecting::Change { len, vma })
                },
            },
        }
    }
}

/// `mprotect`: what to ask of the address space.
///
/// No region grows, and either growth flag on a region that does not is
/// `EINVAL`. `PROT_SEM` is accepted and means nothing.
pub fn sys_mprotect(addr: u64, len: u64, prot: u32) -> (asked: Result<Protecting, Errno>)
    ensures
        asked == spec_mprotect(addr, len, prot),
{
    let grows: u32 = PROT_GROWSDOWN | PROT_GROWSUP;
    if prot & grows == grows || addr % PAGE_SIZE != 0 {
        return Err(Errno::EINVAL);
    }
    if len == 0 {
        return Ok(Protecting::Nothing);
    }
    let rounded: u64 = pages_for(len)?;
    let vma = protection(prot & !(PROT_SEM | grows))?;
    if prot & grows != 0 {
        return Err(Errno::EINVAL);
    }
    Ok(Protecting::Change { len: rounded, vma })
}

/// The answer of `mprotect`, once the address space has said what came of it:
/// a range that is not wholly mapped, or runs out of the user half, is
/// `ENOMEM`, and a region whose protection is not the caller's to change is
/// `EACCES`.
pub fn protected(outcome: Result<(), SpaceError>) -> (result: Result<usize, Errno>)
    ensures
        result == match outcome {
            Ok(_) => Ok::<usize, Errno>(0),
            Err(SpaceError::NotUserRange) => Err(Errno::ENOMEM),
            Err(SpaceError::BadRange) => Err(Errno::ENOMEM),
            Err(SpaceError::Refused) => Err(Errno::EACCES),
            Err(e) => Err(spec_refused(e)),
        },
{
    match outcome {
        Ok(_) => Ok(0),
        Err(SpaceError::NotUserRange) => Err(Errno::ENOMEM),
        Err(SpaceError::BadRange) => Err(Errno::ENOMEM),
        Err(SpaceError::Refused) => Err(Errno::EACCES),
        Err(e) => Err(refused(e)),
    }
}

// ---------------------------------------------------------------------------
// msync and mremap
// ---------------------------------------------------------------------------

/// A mapped region: from `start` up to, and without, `end`.
#[derive(Clone, Copy, Debug, PartialEq, Eq, Structural)]
pub struct Region {
    /// Its first address.
    pub start: u64,
    /// One past its last.
    pub end: u64,
}

/// Regions in ascending order that share no address.
pub open spec fn ordered(regions: Seq<Region>) -> bool {
    &&& forall|i: int| 0 <= i < regions.len() ==> (#[trigger] regions[i]).start <= regions[i].end
    &&& forall|i: int, j: int|
        #![trigger regions[i], regions[j]]
        0 <= i < j < regions.len() ==> regions[i].end <= regions[j].start
}

/// Whether an address is mapped.
pub open spec fn in_regions(regions: Seq<Region>, x: int) -> bool {
    exists|i: int| 0 <= i < regions.len() && regions[i].start <= x < (#[trigger] regions[i]).end
}

/// Whether every address of a range is mapped.
pub open spec fn all_mapped(regions: Seq<Region>, from: int, to: int) -> bool {
    forall|x: int| from <= x < to ==> #[trigger] in_regions(regions, x)
}

/// The answer of `msync`.
///
/// Unknown flags, both ways of writing back, and an address off a page
/// boundary are `EINVAL`; a range that wraps, or is not wholly mapped, is
/// `ENOMEM`.
pub open spec fn spec_msync(regions: Seq<Region>, addr: u64, len: u64, flags: u32) -> Result<
    usize,
    Errno,
> {
    if flags & !(MS_ASYNC | MS_INVALIDATE | MS_SYNC) != 0 || (flags & MS_ASYNC != 0 && flags
        & MS_SYNC != 0) || addr % PAGE_SIZE != 0 {
        Err(Errno::EINVAL)
    } else if len + PAGE_SIZE - 1 > u64::MAX || addr + whole_pages(len as int) > u64::MAX {
        Err(Errno::ENOMEM)
    } else if all_mapped(regions, addr as int, addr + whole_pages(len as int)) {
        Ok(0)
    } else {
        Err(Errno::ENOMEM)
    }
}

/// Whether every address of a range is mapped: walk the regions upwards.
fn range_is_mapped(regions: &Vec<Region>, addr: u64, end: u64) -> (yes: bool)
    requires
        ordered(regions@),
        addr <= end,
    ensures
        yes == all_mapped(regions@, addr as int, end as int),
{
    let mut covered: u64 = addr;
    let mut i: usize = 0;
    while i < regions.len() && covered < end
        invariant
            ordered(regions@),
            i <= regions@.len(),
            addr <= covered,
            all_mapped(regions@, addr as int, covered as int),
            forall|j: int| 0 <= j < i ==> (#[trigger] regions@[j]).end <= covered,
        decreases regions@.len() - i,
    {
        let region = regions[i];
        if region.end > covered {
            if region.start > covered {
                proof {
                    assert forall|j: int| 0 <= j < regions@.len() implies !(regions@[j].start
                        <= covered < (#[trigger] regions@[j]).end) by {
                        if j >= i {
                            assert(regions@[i as int].start <= regions@[j].start);
                        }
                    }
                    assert(!in_regions(regions@, covered as int));
                }
                return false;
            }
            proof {
                assert forall|x: int| addr <= x < region.end implies #[trigger] in_regions(
                    regions@,
                    x,
                ) by {
                    if x >= covered {
                        assert(regions@[i as int].start <= x < regions@[i as int].end);
                    }
                }
            }
            covered = region.end;
        }
        i = i + 1;
    }
    if covered < end {
        proof {
            assert(!in_regions(regions@, covered as int));
        }
        return false;
    }
    true
}

/// `msync`. Nothing is written back, because a shared mapping's pages are the
/// file's own; what is left is what is checked.
pub fn sys_msync(regions: &Vec<Region>, addr: u64, len: u64, flags: u32) -> (result: Result<
    usize,
    Errno,
>)
    requires
        ordered(regions@),
    ensures
        result == spec_msync(regions@, addr, len, flags),
{
    if flags & !(MS_ASYNC | MS_INVALIDATE | MS_SYNC) != 0 || (flags & MS_ASYNC != 0 && flags
        & MS_SYNC != 0) || addr % PAGE_SIZE != 0 {
        return Err(Errno::EINVAL);
    }
    if len > u64::MAX - (PAGE_SIZE - 1) {
        return Err(Errno::ENOMEM);
    }
    let rounded: u64 = ((len + (PAGE_SIZE - 1)) / PAGE_SIZE) * PAGE_SIZE;
    if rounded > u64::MAX - addr {
        return Err(Errno::ENOMEM);
    }
    if range_is_mapped(regions, addr, addr + rounded) {
        Ok(0)
    } else {
        Err(Errno::ENOMEM)
    }
}

/// Where a remapped range goes.
#[derive(Clone, Copy, Debug, PartialEq, Eq, Structural)]
pub enum Destination {
    /// It stays where it is.
    InPlace,
    /// Wherever there is room.
    Anywhere,
    /// Here.
    Fixed(u64),
}

/// What `mremap` asks of the address space.
#[derive(Clone, Copy, Debug, PartialEq, Eq, Structural)]
pub struct Remap {
    /// How much of the old range, in whole pages.
    pub old_len: u64,
    /// How long the new one is.
    pub new_len: u64,
    /// Where it goes.
    pub destination: Destination,
}

/// The smaller of a sum and the largest 64-bit number.
pub open spec fn end_of(start: u64, len: u64) -> int {
    if start + len > u64::MAX {
        u64::MAX as int
    } else {
        start + len
    }
}

/// Whether one region holds a whole range.
pub open spec fn held(regions: Seq<Region>, from: int, to: int) -> bool {
    exists|i: int| 0 <= i < regions.len() && regions[i].start <= from && to <= (
    #[trigger] regions[i]).end
}

/// What `mremap` asks of the address space, or why it is refused.
///
/// Unknown flags, a fixed destination for something that may not move, an
/// address off a page boundary, and a length of zero or one that cannot be
/// rounded are `EINVAL`. A fixed destination is then `EINVAL` if off a page
/// boundary, past the end of the user half, or overlapping the old range; and
/// below [`MMAP_MIN_ADDR`] `EFAULT` if the old range is not mapped and `EPERM`
/// if it is.
pub open spec fn spec_mremap(
    regions: Seq<Region>,
    old_addr: u64,
    old_size: u64,
    new_size: u64,
    flags: u32,
    new_addr: u64,
    user_end: u64,
) -> Result<Remap, Errno> {
    let fixed = flags & MREMAP_FIXED != 0;
    let may_move = flags & MREMAP_MAYMOVE != 0;
    if flags & !(MREMAP_MAYMOVE | MREMAP_FIXED) != 0 || (fixed && !may_move) || old_addr
        % PAGE_SIZE != 0 {
        Err(Errno::EINVAL)
    } else {
        match (spec_pages_for(old_size), spec_pages_for(new_size)) {
            (Ok(old_len), Ok(new_len)) => if !fixed {
                Ok(
                    Remap {
                        old_len,
                        new_len,
                        destination: if may_move {
                            Destination::Anywhere
                        } else {
                            Destination::InPlace
                        },
                    },
                )
            } else if new_addr % PAGE_SIZE != 0 || new_addr + new_len > user_end || (new_addr
                < end_of(old_addr, old_len) && old_addr < new_addr + new_len) {
                Err(Errno::EINVAL)
            } else if new_addr < MMAP_MIN_ADDR {
                if held(regions, old_addr as int, end_of(old_addr, old_len)) {
                    Err(Errno::EPERM)
                } else {
                    Err(Errno::EFAULT)
                }
            } else {
                Ok(Remap { old_len, new_len, destination: Destination::Fixed(new_addr) })
            },
            _ => Err(Errno::EINVAL),
        }
    }
}

/// Whether one region holds a whole range.
fn is_held(regions: &Vec<Region>, from: u64, to: u64) -> (yes: bool)
    ensures
        yes == held(regions@, from as int, to as int),
{
    let mut i: usize = 0;
    while i < regions.len()
        invariant
            i <= regions@.len(),
            forall|j: int|
                0 <= j < i ==> !(regions@[j].start <= from && to <= (#[trigger] regions@[j]).end),
        decreases regions@.len() - i,
    {
        if regions[i].start <= from && to <= regions[i].end {
            assert(regions@[i as int].start <= from && to <= regions@[i as int].end);
            return true;
        }
        i = i + 1;
    }
    false
}

/// `mremap`: what to ask of the address space. The answer is [`answered`].
pub fn sys_mremap(
    regions: &Vec<Region>,
    old_addr: u64,
    old_size: u64,
    new_size: u64,
    flags: u32,
    new_addr: u64,
    user_end: u64,
) -> (asked: Result<Remap, Errno>)
    ensures
        asked == spec_mremap(
            regions@,
            old_addr,
            old_size,
            new_size,
            flags,
            new_addr,
            user_end,
        ),
{
    if flags & !(MREMAP_MAYMOVE | MREMAP_FIXED) != 0 {
        return Err(Errno::EINVAL);
    }
    if flags & MREMAP_FIXED != 0 && flags & MREMAP_MAYMOVE == 0 {
        return Err(Errno::EINVAL);
    }
    if old_addr % PAGE_SIZE != 0 {
        return Err(Errno::EINVAL);
    }
    let old_len: u64 = match pages_for(old_size) {
        Ok(len) => len,
        Err(_) => return Err(Errno::EINVAL),
    };
    let new_len: u64 = match pages_for(new_size) {
        Ok(len) => len,
        Err(_) => return Err(Errno::EINVAL),
    };
    if flags & MREMAP_FIXED == 0 {
        let destination = if flags & MREMAP_MAYMOVE != 0 {
            Destination::Anywhere
        } else {
            Destination::InPlace
        };
        return Ok(Remap { old_len, new_len, destination });
    }
    if new_addr % PAGE_SIZE != 0 {
        return Err(Errno::EINVAL);
    }
    if new_len > user_end || new_addr > user_end - new_len {
        return Err(Errno::EINVAL);
    }
    let new_end: u64 = new_addr + new_len;
    let old_end: u64 = match old_addr.checked_add(old_len) {
        Some(end) => end,
        None => u64::MAX,
    };
    if new_addr < old_end && old_addr < new_end {
        return Err(Errno::EINVAL);
    }
    if new_addr < MMAP_MIN_ADDR {
        return Err(
            if is_held(regions, old_addr, old_end) {
                Errno::EPERM
            } else {
                Errno::EFAULT
            },
        );
    }
    Ok(Remap { old_len, new_len, destination: Destination::Fixed(new_addr) })
}

/// A fixed destination is inside the user half, above [`MMAP_MIN_ADDR`], on a
/// page boundary, and shares no address with the range that moves there.
pub proof fn law_a_remap_never_overlaps_itself(
    regions: Seq<Region>,
    old_addr: u64,
    old_size: u64,
    new_size: u64,
    flags: u32,
    new_addr: u64,
    user_end: u64,
)
    ensures
        match spec_mremap(regions, old_addr, old_size, new_size, flags, new_addr, user_end) {
            Ok(Remap { old_len, new_len, destination: Destination::Fixed(at) }) => {
                &&& at == new_addr
                &&& MMAP_MIN_ADDR <= at
                &&& at % PAGE_SIZE == 0
                &&& at + new_len <= user_end
                &&& at + new_len <= old_addr || end_of(old_addr, old_len) <= at
            },
            _ => true,
        },
{
}

/// A program's heap: from its start up to the break.
#[derive(Clone, Copy, Debug, PartialEq, Eq, Structural)]
pub struct Heap {
    /// Where it starts.
    pub start: u64,
    /// The break.
    pub end: u64,
}

impl Heap {
    /// The break is never below the start.
    pub open spec fn wf(self) -> bool {
        self.start <= self.end
    }

    /// Whether a request for a break at `want` is one to try: any but one
    /// below the start.
    pub open spec fn spec_tries(self, want: u64) -> bool {
        want >= self.start
    }

    /// Whether a request for a break at `want` is one to try, and what lies
    /// between the two breaks to be mapped or unmapped.
    pub fn tries(&self, want: u64) -> (yes: bool)
        ensures
            yes == self.spec_tries(want),
    {
        want >= self.start
    }

    /// The heap once a break at `want` was asked for, and `moved` is whether
    /// the memory could be mapped or unmapped.
    pub open spec fn asked(self, want: u64, moved: bool) -> Heap {
        Heap {
            start: self.start,
            end: if self.spec_tries(want) && moved {
                want
            } else {
                self.end
            },
        }
    }
}

/// `brk`: move the break if the memory moved with it, and answer the break as
/// it is then. It answers the break rather than an error, always: the one it
/// had for a request that was refused.
pub fn sys_brk(heap: &mut Heap, want: u64, moved: bool) -> (result: Result<usize, Errno>)
    requires
        old(heap).wf(),
    ensures
        final(heap).wf(),
        *final(heap) == old(heap).asked(want, moved),
        result == Ok::<usize, Errno>(spec_usize_of(final(heap).end)),
{
    if heap.tries(want) && moved {
        heap.end = want;
    }
    Ok(usize_of(heap.end))
}

/// A refused request leaves the break where it was, one that is granted puts
/// it where it was asked, and asking for where it was before brings it back.
pub proof fn law_a_refused_break_is_unchanged(heap: Heap, want: u64, moved: bool)
    requires
        heap.wf(),
    ensures
        want < heap.start || !moved ==> heap.asked(want, moved) == heap,
        want >= heap.start ==> heap.asked(want, true).end == want,
        heap.asked(want, moved).asked(heap.end, true) == heap,
        heap.asked(0, moved).end == heap.end || heap.start == 0,
{
}

// ---------------------------------------------------------------------------
// What mapping memory is for
// ---------------------------------------------------------------------------

/// What the flags that are looked at together come to.
proof fn lemma_flag_sums()
    ensures
        1u32 | 2u32 == 3,
        1u32 | 2u32 | 4u32 == 7,
        0x10u32 | 0x10_0000u32 == 0x10_0010,
        0x100_0000u32 | 0x200_0000u32 == 0x300_0000,
        8u32 | 0x300_0000u32 == 0x300_0008,
{
    assert(1u32 | 2u32 == 3 && 1u32 | 2u32 | 4u32 == 7 && 0x10u32 | 0x10_0000u32 == 0x10_0010
        && 0x100_0000u32 | 0x200_0000u32 == 0x300_0000 && 8u32 | 0x300_0000u32 == 0x300_0008)
        by (bit_vector);
}

/// A file mapping starts at the byte the program named, whichever unit it
/// named it in, and shows the file of the descriptor it named.
pub proof fn law_a_file_is_mapped_from_where_it_was_asked(
    table: FdTable,
    open: Seq<OpenFile>,
    r: MmapRequest,
    arch: Arch,
)
    ensures
        spec_mmap(table, open, r, arch) matches Ok(Mapping::File { file, offset, .. }) ==> {
            &&& r.unit == OffsetUnit::Bytes ==> offset == r.offset && r.offset % 4096 == 0
            &&& r.unit == OffsetUnit::Pages ==> offset == r.offset * 4096
            &&& 0 <= r.fd <= 0x7FFF_FFFF ==> table@.dom().contains(r.fd as int) && file
                == table@[r.fd as int].file
        },
{
}

/// Whether `vma` is what `prot` and `flags` ask for: each access if and only if
/// its bit is there, and shared or private by the one of the two that is.
pub open spec fn asked_access(vma: VmaFlags, prot: u32, flags: u32) -> bool {
    &&& vma.read <==> prot & 1 != 0
    &&& vma.write <==> prot & 2 != 0
    &&& vma.execute <==> prot & 4 != 0
    &&& vma.shared <==> flags & 1 != 0
}

/// Whether `rounded` is the least number of whole pages that holds `len`.
pub open spec fn least_pages(len: int, rounded: int) -> bool {
    rounded % 4096 == 0 && len <= rounded < len + 4096
}

/// A mapping is as long as was asked, in whole pages, with the access that was
/// asked; it is anonymous exactly if that was asked.
pub proof fn law_a_mapping_is_what_was_asked(
    table: FdTable,
    open: Seq<OpenFile>,
    r: MmapRequest,
    arch: Arch,
)
    ensures
        spec_mmap(table, open, r, arch) matches Ok(Mapping::Anonymous { len, vma, .. }) ==> r.flags
            & 0x20 != 0 && least_pages(r.len as int, len as int) && len > 0 && asked_access(
            vma,
            r.prot,
            r.flags,
        ),
        spec_mmap(table, open, r, arch) matches Ok(Mapping::File { len, vma, .. }) ==> r.flags & 0x20
            == 0 && least_pages(r.len as int, len as int) && len > 0 && asked_access(
            vma,
            r.prot,
            r.flags,
        ),
        spec_mmap(table, open, r, arch) is Ok ==> (r.flags & 1 != 0) != (r.flags & 2 != 0) && r.prot
            & !7 == 0 && r.len > 0,
{
    lemma_flag_sums();
}

/// A mapping that is not fixed goes near the address asked for, if one was.
pub proof fn law_a_hint_is_a_hint(
    table: FdTable,
    open: Seq<OpenFile>,
    r: MmapRequest,
    arch: Arch,
)
    requires
        r.flags & 0x10_0010 == 0,
    ensures
        spec_mmap(table, open, r, arch) matches Ok(Mapping::Anonymous { at, .. }) ==> at
            == Place::Anywhere(
            if r.addr == 0 {
                None
            } else {
                Some(r.addr)
            },
        ),
        spec_mmap(table, open, r, arch) matches Ok(Mapping::File { at, .. }) ==> at
            == Place::Anywhere(
            if r.addr == 0 {
                None
            } else {
                Some(r.addr)
            },
        ),
{
    lemma_flag_sums();
}

/// Whether nothing about a request's own arguments is wrong: a known
/// protection, a length that pages can hold, one of shared and private, and an
/// offset of whole pages that a word can count.
pub open spec fn sound_request(r: MmapRequest) -> bool {
    &&& r.prot & !7 == 0
    &&& 0 < r.len <= 0x1_0000_0000
    &&& (r.flags & 1 != 0) != (r.flags & 2 != 0)
    &&& r.unit == OffsetUnit::Bytes ==> r.offset % 4096 == 0 && r.offset <= 0x1_0000_0000
    &&& r.unit == OffsetUnit::Pages ==> r.offset <= 0x10_0000
}

/// A sound request is granted: of memory always, and of a file that is open for
/// reading, has pages, and may be written if the mapping would share writes.
pub proof fn law_a_sound_mapping_is_granted(
    table: FdTable,
    open: Seq<OpenFile>,
    r: MmapRequest,
    arch: Arch,
)
    requires
        sound_request(r),
        r.flags & 0x10_0010 == 0 || (r.addr % 4096 == 0 && r.addr >= 0x1_0000),
    ensures
        r.flags & 0x20 != 0 ==> spec_mmap(table, open, r, arch) is Ok,
        r.flags & 0x20 == 0 && 0 <= r.fd <= 0x7FFF_FFFF ==> {
            let f = r.fd as int;
            let file = open[table@[f].file as int];
            let shares_writes = r.flags & 1 != 0 && r.prot & 2 != 0;
            let answer = spec_mmap(table, open, r, arch);
            &&& !table@.dom().contains(f) ==> answer == Err::<Mapping, Errno>(Errno::EBADF)
            &&& table@.dom().contains(f) ==> {
                &&& file.path_only ==> answer == Err::<Mapping, Errno>(Errno::EBADF)
                &&& !file.path_only && !file.readable ==> answer == Err::<Mapping, Errno>(
                    Errno::EACCES,
                )
                &&& !file.path_only && file.readable && shares_writes && !file.writable ==> answer
                    == Err::<Mapping, Errno>(Errno::EACCES)
                &&& !file.path_only && file.readable && file.mappable && (!shares_writes || (
                file.writable && file.seals & 0x18 == 0)) ==> answer is Ok
                &&& !file.path_only && file.readable && !shares_writes && !file.mappable ==> answer
                    == Err::<Mapping, Errno>(Errno::ENODEV)
            }
        },
{
    lemma_flag_sums();
}

/// A mapping of a file may come to be written only if it is shared, and the
/// file is open for writing and not sealed against it.
pub proof fn law_a_mapping_may_write_only_what_may_be_written(
    table: FdTable,
    open: Seq<OpenFile>,
    r: MmapRequest,
    arch: Arch,
)
    ensures
        spec_mmap(table, open, r, arch) matches Ok(Mapping::File { file, may_write, vma, .. }) ==> {
            &&& may_write <==> r.flags & 1 != 0 && open[file as int].writable && open[file
                as int].seals & 0x18 == 0
            &&& open[file as int].readable && !open[file as int].path_only
                && open[file as int].mappable
            &&& vma.shared && vma.write ==> open[file as int].writable
        },
{
}

/// `mprotect` changes as many whole pages as hold the length, to the access
/// that was asked; with no length it changes nothing. A sound request is
/// granted.
pub proof fn law_protecting_does_what_was_asked(addr: u64, len: u64, prot: u32)
    ensures
        spec_mprotect(addr, len, prot) matches Ok(Protecting::Change { len: rounded, vma }) ==> {
            &&& addr % 4096 == 0 && len > 0
            &&& least_pages(len as int, rounded as int)
            &&& vma.read <==> prot & 1 != 0
            &&& vma.write <==> prot & 2 != 0
            &&& vma.execute <==> prot & 4 != 0
            &&& !vma.shared
        },
        addr % 4096 == 0 && len == 0 && prot & 0x300_0000 == 0 ==> spec_mprotect(addr, len, prot)
            == Ok::<Protecting, Errno>(Protecting::Nothing),
        spec_mprotect(addr, len, prot) == Ok::<Protecting, Errno>(Protecting::Nothing) ==> len == 0,
        addr % 4096 == 0 && 0 < len <= 0x1_0000_0000 && prot & !0xF == 0 ==> spec_mprotect(
            addr,
            len,
            prot,
        ) is Ok,
        addr % 4096 != 0 ==> spec_mprotect(addr, len, prot) == Err::<Protecting, Errno>(
            Errno::EINVAL,
        ),
        len > 0 && prot & 0x300_0000 != 0 ==> spec_mprotect(addr, len, prot) is Err,
{
    lemma_flag_sums();
    let bare = prot & !0x300_0008u32;
    assert((prot & !0x300_0008u32) & 1 == prot & 1 && (prot & !0x300_0008u32) & 2 == prot & 2 && (
    prot & !0x300_0008u32) & 4 == prot & 4 && (prot & !0xFu32 == 0 ==> (prot & !0x300_0008u32)
        & !7u32 == 0 && prot & 0x300_0000 == 0)) by (bit_vector);
}

/// `msync` succeeds exactly on whole pages that are all mapped, asked for in a
/// way there is.
pub proof fn law_only_mapped_pages_are_synced(
    regions: Seq<Region>,
    addr: u64,
    len: u64,
    flags: u32,
    end: int,
    x: int,
)
    requires
        least_pages(len as int, end - addr),
        end <= u64::MAX,
        len <= u64::MAX - 4095,
    ensures
        spec_msync(regions, addr, len, flags) is Ok ==> {
            &&& flags & !7 == 0
            &&& !(flags & 1 != 0 && flags & 4 != 0)
            &&& addr % 4096 == 0
            &&& addr <= x < end ==> exists|i: int|
                0 <= i < regions.len() && (#[trigger] regions[i]).start <= x < regions[i].end
        },
        flags & !7 == 0 && !(flags & 1 != 0 && flags & 4 != 0) && addr % 4096 == 0 && (forall|y: int|
            addr <= y < end ==> #[trigger] in_regions(regions, y)) ==> spec_msync(
            regions,
            addr,
            len,
            flags,
        ) == Ok::<usize, Errno>(0),
        addr % 4096 == 0 && flags & !7 == 0 && spec_msync(regions, addr, len, flags) == Err::<
            usize,
            Errno,
        >(Errno::EINVAL) ==> flags & 1 != 0 && flags & 4 != 0,
{
    lemma_flag_sums();
    assert(whole_pages(len as int) == end - addr);
    if spec_msync(regions, addr, len, flags) is Ok && addr <= x < end {
        assert(in_regions(regions, x));
    }
}

/// `mremap` moves as many whole pages as hold the old length, and makes as many
/// as hold the new one; it moves them only where, and only if, it may.
pub proof fn law_a_remap_is_what_was_asked(
    regions: Seq<Region>,
    old_addr: u64,
    old_size: u64,
    new_size: u64,
    flags: u32,
    new_addr: u64,
    user_end: u64,
)
    ensures
        spec_mremap(regions, old_addr, old_size, new_size, flags, new_addr, user_end) matches Ok(
            asked,
        ) ==> {
            &&& least_pages(old_size as int, asked.old_len as int)
            &&& least_pages(new_size as int, asked.new_len as int)
            &&& old_addr % 4096 == 0
            &&& asked.destination == Destination::InPlace <==> flags & 1 == 0
            &&& asked.destination == Destination::Anywhere <==> flags & 1 != 0 && flags & 2 == 0
            &&& asked.destination == Destination::Fixed(new_addr) <==> flags & 2 != 0
            &&& flags & !3 == 0
        },
        old_addr % 4096 == 0 && 0 < old_size <= 0x1_0000_0000 && 0 < new_size <= 0x1_0000_0000
            && flags <= 1 ==> spec_mremap(
            regions,
            old_addr,
            old_size,
            new_size,
            flags,
            new_addr,
            user_end,
        ) is Ok,
{
    lemma_flag_sums();
    assert(flags <= 1 ==> flags & !3 == 0 && flags & 2 == 0) by (bit_vector);
}

/// What the address space refuses keeps its meaning: no room is `ENOMEM`, a
/// file that cannot be read `EIO`, a range that is none `EINVAL`, and one that
/// is not there to be used `EFAULT`.
pub proof fn law_a_refusal_keeps_its_meaning(error: SpaceError)
    ensures
        spec_refused(error) == Errno::ENOMEM <==> error == SpaceError::OutOfMemory || error
            == SpaceError::Backing,
        spec_refused(error) == Errno::EIO <==> error == SpaceError::Unreadable,
        spec_refused(error) == Errno::EINVAL <==> error == SpaceError::NotUserRange || error
            == SpaceError::BadRange,
        spec_refused(error) == Errno::EFAULT <==> error == SpaceError::NotMapped || error
            == SpaceError::Refused || error == SpaceError::PastEnd,
{
}

/// What a call asks of the address space, of the request it was given: the
/// file's own bytes from where the program named.
pub proof fn law_mmap_maps_what_was_named(
    table: FdTable,
    open: Vec<OpenFile>,
    r: MmapRequest,
    arch: Arch,
    mapping: Result<Mapping, Errno>,
)
    requires
        call_ensures(sys_mmap, (&table, &open, &r, arch), mapping),
    ensures
        mapping matches Ok(Mapping::File { file, offset, len, vma, .. }) ==> {
            &&& r.unit == OffsetUnit::Bytes ==> offset == r.offset
            &&& r.unit == OffsetUnit::Pages ==> offset == r.offset * 4096
            &&& 0 <= r.fd <= 0x7FFF_FFFF ==> file == table@[r.fd as int].file
            &&& least_pages(r.len as int, len as int)
            &&& asked_access(vma, r.prot, r.flags)
        },
        mapping matches Ok(Mapping::Anonymous { len, vma, .. }) ==> least_pages(
            r.len as int,
            len as int,
        ) && asked_access(vma, r.prot, r.flags),
{
    law_a_file_is_mapped_from_where_it_was_asked(table, open@, r, arch);
    law_a_mapping_is_what_was_asked(table, open@, r, arch);
}

/// `munmap` takes out as many whole pages as hold the length, from a page on.
pub proof fn law_whole_pages_are_unmapped(addr: u64, len: u64, range: Result<u64, Errno>)
    requires
        call_ensures(sys_munmap, (addr, len), range),
    ensures
        range matches Ok(rounded) ==> addr % 4096 == 0 && len > 0 && least_pages(
            len as int,
            rounded as int,
        ),
        addr % 4096 == 0 && 0 < len <= u64::MAX - 4095 ==> range is Ok,
        addr % 4096 != 0 || len == 0 ==> range == Err::<u64, Errno>(Errno::EINVAL),
{
}

/// What came of changing pages is told: nothing that fails is told as done, and
/// a change that is not the caller's to make is `EACCES`.
pub proof fn law_what_came_of_it_is_told(
    outcome: Result<(), SpaceError>,
    unmap: Result<usize, Errno>,
    protect: Result<usize, Errno>,
)
    requires
        call_ensures(unmapped, (outcome,), unmap),
        call_ensures(protected, (outcome,), protect),
    ensures
        outcome is Ok <==> unmap == Ok::<usize, Errno>(0),
        outcome is Ok <==> protect == Ok::<usize, Errno>(0),
        outcome is Err <==> unmap is Err,
        outcome is Err <==> protect is Err,
        outcome == Err::<(), SpaceError>(SpaceError::Refused) <==> protect == Err::<usize, Errno>(
            Errno::EACCES,
        ),
        outcome == Err::<(), SpaceError>(SpaceError::OutOfMemory) ==> protect == Err::<usize, Errno>(
            Errno::ENOMEM,
        ) && unmap == Err::<usize, Errno>(Errno::ENOMEM),
{
}

/// A mapping that went in is answered by where it is, unless it could be
/// written and its file was sealed meanwhile: then it is taken out again.
pub proof fn law_a_sealed_mapping_is_taken_out_again(
    outcome: Result<u64, SpaceError>,
    may_write: bool,
    seals: u32,
    end: FileMapped,
)
    requires
        call_ensures(file_answered, (outcome, may_write, seals), end),
    ensures
        end is Undo <==> outcome is Ok && may_write && seals & 0x18 != 0,
        end matches FileMapped::Undo { at, errno } ==> Ok::<u64, SpaceError>(at) == outcome && errno
            == Errno::EPERM,
        end matches FileMapped::Answer(answer) ==> (answer is Ok <==> outcome is Ok),
        end matches FileMapped::Answer(Ok(n)) ==> outcome->Ok_0 <= usize::MAX ==> n
            == outcome->Ok_0,
{
}

} // verus!
