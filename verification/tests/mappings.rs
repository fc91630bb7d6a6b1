//! Asking for memory, moving it, and giving it up.

use syscall::abi::Arch;
use syscall::errno::Errno;
use syscall::fd::{standard_streams, FdTable, FileType, OpenFile};
use syscall::load::{SpaceError, VmaFlags};
use syscall::memory::{
    answered, file_answered, pages_for, place, protected, protection, refused, sys_brk, sys_mmap,
    sys_mprotect, sys_mremap, sys_msync, sys_munmap, unmapped, Destination, FileMapped, Heap,
    Mapping, MmapRequest, OffsetUnit, Place, Protecting, Region, MAP_ANONYMOUS, MAP_FIXED,
    MAP_FIXED_NOREPLACE, MAP_PRIVATE, MAP_SHARED, MMAP_MIN_ADDR, MREMAP_FIXED, MREMAP_MAYMOVE,
    MS_ASYNC, MS_SYNC, PROT_EXEC, PROT_GROWSDOWN, PROT_GROWSUP, PROT_READ, PROT_SEM, PROT_WRITE,
};
use syscall::uaccess::{AddressSpace, Segment};

const PAGE_SIZE: u64 = 4096;
const USER_END: u64 = 0x8000_0000;
const TEST_BASE: u64 = 0x2000_0000;
const X86: Arch = Arch::X86_64;

/// A program's memory, one segment to a page, with what the calls decide
/// carried out on it.
struct Host {
    space: AddressSpace,
    table: FdTable,
    open: Vec<OpenFile>,
}

fn host() -> Host {
    Host {
        space: AddressSpace { id: 1, user_end: USER_END, segments: Vec::new() },
        table: standard_streams(0),
        open: vec![described(FileType::CharDevice, true, true)],
    }
}

fn described(kind: FileType, readable: bool, writable: bool) -> OpenFile {
    OpenFile {
        kind,
        path_only: false,
        readable,
        writable,
        append: false,
        nonblock: false,
        filesystem: 1,
        ino: 42,
        pollable: false,
        epoll_set: false,
        console: false,
        mappable: kind == FileType::Regular,
        seals: 0,
    }
}

impl Host {
    fn page(&self, at: u64) -> Option<usize> {
        self.space.segments.iter().position(|s| s.start == at)
    }

    fn any_mapped(&self, at: u64, len: u64) -> bool {
        self.space.segments.iter().any(|s| at <= s.start && s.start < at + len)
    }

    fn all_mapped(&self, at: u64, len: u64) -> bool {
        (0..len / PAGE_SIZE).all(|i| self.page(at + i * PAGE_SIZE).is_some())
    }

    fn gap(&self, len: u64) -> u64 {
        let mut at = MMAP_MIN_ADDR;
        while self.any_mapped(at, len) {
            at += PAGE_SIZE;
        }
        at
    }

    fn map(&mut self, at: u64, len: u64, writable: bool) {
        for i in 0..len / PAGE_SIZE {
            self.space.segments.push(Segment {
                start: at + i * PAGE_SIZE,
                bytes: vec![0; PAGE_SIZE as usize],
                writable,
                shared: None,
            });
        }
    }

    fn unmap(&mut self, at: u64, len: u64) {
        self.space.segments.retain(|s| s.start < at || s.start >= at + len);
    }

    fn regions(&self) -> Vec<Region> {
        let mut pages: Vec<(u64, bool)> =
            self.space.segments.iter().map(|s| (s.start, s.writable)).collect();
        pages.sort();
        let mut regions: Vec<(Region, bool)> = Vec::new();
        for (at, writable) in pages {
            match regions.last_mut() {
                Some((region, same)) if region.end == at && *same == writable => {
                    region.end += PAGE_SIZE;
                }
                _ => regions.push((Region { start: at, end: at + PAGE_SIZE }, writable)),
            }
        }
        regions.into_iter().map(|(region, _)| region).collect()
    }

    fn mmap(&mut self, request: &MmapRequest) -> Result<usize, Errno> {
        match sys_mmap(&self.table, &self.open, request, X86)? {
            Mapping::Anonymous { at, len, vma } => {
                let start = match at {
                    Place::Anywhere(_) => self.gap(len),
                    Place::Fixed { at, clear } => {
                        if clear {
                            self.unmap(at, len);
                        } else if self.any_mapped(at, len) {
                            return Err(Errno::EEXIST);
                        }
                        at
                    }
                };
                self.map(start, len, vma.write);
                answered(Ok(start))
            }
            Mapping::File { .. } => panic!("no file was asked for"),
        }
    }

    fn munmap(&mut self, at: u64, len: u64) -> Result<usize, Errno> {
        let len = sys_munmap(at, len)?;
        self.unmap(at, len);
        unmapped(Ok(()))
    }

    fn mprotect(&mut self, at: u64, len: u64, prot: u32) -> Result<usize, Errno> {
        match sys_mprotect(at, len, prot)? {
            Protecting::Nothing => Ok(0),
            Protecting::Change { len, vma } => {
                if !self.all_mapped(at, len) {
                    return protected(Err(SpaceError::BadRange));
                }
                for segment in &mut self.space.segments {
                    if at <= segment.start && segment.start < at + len {
                        segment.writable = vma.write;
                    }
                }
                protected(Ok(()))
            }
        }
    }

    fn mremap(
        &mut self,
        at: u64,
        size: u64,
        new: u64,
        flags: u32,
        to: u64,
    ) -> Result<usize, Errno> {
        let asked = sys_mremap(&self.regions(), at, size, new, flags, to, USER_END)?;
        let room = |host: &Host| {
            asked.new_len <= asked.old_len
                || !host.any_mapped(at + asked.old_len, asked.new_len - asked.old_len)
        };
        let target = match asked.destination {
            Destination::Fixed(to) => {
                self.unmap(to, asked.new_len);
                to
            }
            _ if room(self) => at,
            Destination::Anywhere => self.gap(asked.new_len),
            Destination::InPlace => return answered(Err(SpaceError::OutOfMemory)),
        };
        let mut kept = Vec::new();
        for i in 0..asked.new_len.min(asked.old_len) / PAGE_SIZE {
            kept.push(self.space.segments[self.page(at + i * PAGE_SIZE).unwrap()].bytes.clone());
        }
        self.unmap(at, asked.old_len);
        self.map(target, asked.new_len, true);
        for (i, bytes) in kept.into_iter().enumerate() {
            let page = self.page(target + i as u64 * PAGE_SIZE).unwrap();
            self.space.segments[page].bytes = bytes;
        }
        answered(Ok(target))
    }
}

fn anonymous(addr: u64, len: u64, flags: u32) -> MmapRequest {
    MmapRequest {
        addr,
        len,
        prot: PROT_READ | PROT_WRITE,
        flags: MAP_ANONYMOUS | MAP_PRIVATE | flags,
        fd: -1,
        offset: 0,
        unit: OffsetUnit::Bytes,
    }
}

fn map_rw(host: &mut Host, len: u64) -> u64 {
    host.mmap(&anonymous(0, len, 0)).unwrap() as u64
}

#[test]
fn check_mmap_returns_usable_memory() {
    let mut host = host();
    let at = map_rw(&mut host, PAGE_SIZE);
    assert_eq!(at % PAGE_SIZE, 0);
    assert_eq!(host.space.copy_to_user(at, b"stage 7 was here"), Ok(()));
    assert_eq!(host.space.copy_from_user(at, 16), Ok(b"stage 7 was here".to_vec()));
    assert_eq!(host.munmap(at, PAGE_SIZE), Ok(0));
    assert_eq!(host.space.copy_from_user(at, 1), Err(Errno::EFAULT));
}

#[test]
fn check_mmap_rejects_what_it_should() {
    let host = host();
    let anon = MAP_ANONYMOUS | MAP_PRIVATE;
    for (addr, len, prot, flags, fd) in [
        (0, 0, PROT_READ, anon, -1),
        (0, u64::MAX, PROT_READ, anon, -1),
        (0, PAGE_SIZE, 0x40, anon, -1),
        (0, PAGE_SIZE, PROT_READ, MAP_PRIVATE, -1),
        (0, PAGE_SIZE, PROT_READ, MAP_ANONYMOUS | MAP_PRIVATE | MAP_SHARED, -1),
    ] {
        let request =
            MmapRequest { addr, len, prot, flags, fd, offset: 0, unit: OffsetUnit::Bytes };
        assert!(sys_mmap(&host.table, &host.open, &request, X86).is_err());
    }
}

#[test]
fn check_memory_and_time_answer_as_linux_does() {
    let mut host = host();
    // An anonymous mapping ignores its descriptor, and a whole-page offset.
    let at = host
        .mmap(&MmapRequest { fd: 3, offset: PAGE_SIZE, ..anonymous(0, PAGE_SIZE, 0) })
        .unwrap() as u64;
    assert_eq!(
        host.mmap(&MmapRequest { offset: 1, ..anonymous(0, PAGE_SIZE, 0) }),
        Err(Errno::EINVAL)
    );
    assert_eq!(host.mprotect(at, 0, 0x40), Ok(0));
    assert_eq!(host.mprotect(at, PAGE_SIZE, PROT_READ | PROT_SEM), Ok(0));
    assert_eq!(host.mprotect(TEST_BASE, PAGE_SIZE, PROT_READ), Err(Errno::ENOMEM));
    assert_eq!(
        host.mprotect(at, PAGE_SIZE, PROT_READ | PROT_GROWSDOWN),
        Err(Errno::EINVAL)
    );
    assert_eq!(
        host.mprotect(at, PAGE_SIZE, PROT_GROWSDOWN | PROT_GROWSUP),
        Err(Errno::EINVAL)
    );
}

#[test]
fn check_nothing_is_mapped_near_page_zero() {
    let mut host = host();
    for addr in [0, PAGE_SIZE, MMAP_MIN_ADDR - PAGE_SIZE] {
        for fixed in [MAP_FIXED, MAP_FIXED_NOREPLACE] {
            assert_eq!(
                host.mmap(&anonymous(addr, PAGE_SIZE, fixed)),
                Err(Errno::EPERM)
            );
        }
    }
    let at = host.mmap(&anonymous(0x10, PAGE_SIZE, 0)).unwrap() as u64;
    assert!(at >= MMAP_MIN_ADDR);
    assert_eq!(host.munmap(at, PAGE_SIZE), Ok(0));
    assert_eq!(
        host.mmap(&anonymous(MMAP_MIN_ADDR, PAGE_SIZE, MAP_FIXED)),
        Ok(MMAP_MIN_ADDR as usize)
    );
}

#[test]
fn check_fixed_mapping_lands_where_asked() {
    let mut host = host();
    assert_eq!(
        host.mmap(&anonymous(TEST_BASE, PAGE_SIZE, MAP_FIXED)),
        Ok(TEST_BASE as usize)
    );
    assert_eq!(host.munmap(TEST_BASE, PAGE_SIZE), Ok(0));
    assert_eq!(place(TEST_BASE + 1, MAP_FIXED), Err(Errno::EINVAL));
    assert_eq!(place(0, 0), Ok(Place::Anywhere(None)));
    assert_eq!(place(0x10, 0), Ok(Place::Anywhere(Some(0x10))));
    assert_eq!(
        place(TEST_BASE, MAP_FIXED_NOREPLACE),
        Ok(Place::Fixed { at: TEST_BASE, clear: false })
    );
}

#[test]
fn check_mprotect_takes_write_away() {
    let mut host = host();
    let at = map_rw(&mut host, PAGE_SIZE);
    assert_eq!(host.space.copy_to_user(at, b"before"), Ok(()));
    assert_eq!(host.mprotect(at, PAGE_SIZE, PROT_READ), Ok(0));
    assert_eq!(host.space.copy_to_user(at, b"after"), Err(Errno::EFAULT));
    assert_eq!(host.space.copy_from_user(at, 6), Ok(b"before".to_vec()));
    assert_eq!(host.mprotect(at, PAGE_SIZE, PROT_READ | PROT_WRITE), Ok(0));
    assert_eq!(host.space.copy_to_user(at, b"after"), Ok(()));
    assert_eq!(host.mprotect(at + 1, PAGE_SIZE, PROT_READ), Err(Errno::EINVAL));
}

const FIRST: &[u8] = b"the first page";
const ACROSS: &[u8] = b"across the page boundary";

#[test]
fn check_mremap_moves_the_contents_and_shrinks_in_place() {
    let mut host = host();
    let at = map_rw(&mut host, PAGE_SIZE * 3);
    assert_eq!(host.space.copy_to_user(at, FIRST), Ok(()));
    assert_eq!(host.space.copy_to_user(at + PAGE_SIZE - 8, ACROSS), Ok(()));
    assert_eq!(host.mprotect(at + PAGE_SIZE * 2, PAGE_SIZE, PROT_READ), Ok(0));

    assert_eq!(
        host.mremap(at, PAGE_SIZE * 2, PAGE_SIZE * 4, 0, 0),
        Err(Errno::ENOMEM)
    );
    assert_eq!(
        host.mremap(at, PAGE_SIZE * 2, PAGE_SIZE * 4, MREMAP_FIXED, at + PAGE_SIZE * 8),
        Err(Errno::EINVAL)
    );
    assert_eq!(
        host.mremap(at + 1, PAGE_SIZE, PAGE_SIZE * 2, MREMAP_MAYMOVE, 0),
        Err(Errno::EINVAL)
    );

    let moved =
        host.mremap(at, PAGE_SIZE * 2, PAGE_SIZE * 4, MREMAP_MAYMOVE, 0).unwrap() as u64;
    assert_ne!(moved, at);
    assert_eq!(host.space.copy_from_user(moved, FIRST.len()), Ok(FIRST.to_vec()));
    assert_eq!(
        host.space.copy_from_user(moved + PAGE_SIZE - 8, ACROSS.len()),
        Ok(ACROSS.to_vec())
    );
    assert_eq!(host.space.copy_from_user(at, 1), Err(Errno::EFAULT));
    assert_eq!(host.space.copy_from_user(moved + PAGE_SIZE * 3, 1), Ok(vec![0]));

    assert_eq!(
        host.mremap(moved, PAGE_SIZE * 4, PAGE_SIZE, 0, 0),
        Ok(moved as usize)
    );
    assert_eq!(host.space.copy_from_user(moved, FIRST.len()), Ok(FIRST.to_vec()));
    assert_eq!(host.space.copy_from_user(moved + PAGE_SIZE, 1), Err(Errno::EFAULT));

    assert_eq!(
        host.mremap(moved, PAGE_SIZE, PAGE_SIZE, MREMAP_MAYMOVE | MREMAP_FIXED, at),
        Ok(at as usize)
    );
    assert_eq!(host.space.copy_from_user(at, FIRST.len()), Ok(FIRST.to_vec()));
    assert_eq!(host.munmap(at, PAGE_SIZE * 3), Ok(0));
}

#[test]
fn check_mremap_below_mmap_min_addr_is_eperm() {
    const MOVE_TO: u32 = MREMAP_MAYMOVE | MREMAP_FIXED;
    const MARK: &[u8] = b"still here";
    let mut host = host();
    let at = map_rw(&mut host, PAGE_SIZE * 2);
    assert_eq!(host.space.copy_to_user(at, MARK), Ok(()));
    assert_eq!(host.munmap(at + PAGE_SIZE, PAGE_SIZE), Ok(0));
    for target in [0, PAGE_SIZE, MMAP_MIN_ADDR - PAGE_SIZE] {
        assert_eq!(
            host.mremap(at, PAGE_SIZE, PAGE_SIZE, MOVE_TO, target),
            Err(Errno::EPERM)
        );
    }
    // Growing across the floor is the same address, so the same answer, unless
    // it would land on the old range.
    let far = host.mmap(&anonymous(TEST_BASE, PAGE_SIZE, MAP_FIXED)).unwrap() as u64;
    assert_eq!(
        host.mremap(far, PAGE_SIZE, PAGE_SIZE * 2, MOVE_TO, MMAP_MIN_ADDR - PAGE_SIZE),
        Err(Errno::EPERM)
    );
    assert_eq!(
        host.mremap(at + PAGE_SIZE, PAGE_SIZE, PAGE_SIZE, MOVE_TO, 0),
        Err(Errno::EFAULT)
    );
    assert_eq!(
        host.mremap(at, PAGE_SIZE, at + PAGE_SIZE, MOVE_TO, 0),
        Err(Errno::EINVAL)
    );
    assert_eq!(host.space.copy_from_user(at, MARK.len()), Ok(MARK.to_vec()));
}

#[test]
fn a_break_is_answered_as_it_is() {
    let mut heap = Heap { start: 0x60_2000, end: 0x60_2000 };
    let start = 0x60_2000;
    assert!(!heap.tries(0) && heap.tries(start + 8192));
    assert_eq!(sys_brk(&mut heap, 0, true), Ok(start as usize));
    assert_eq!(sys_brk(&mut heap, start + 8192, true), Ok(start as usize + 8192));
    // No memory for more: the break stays.
    assert_eq!(sys_brk(&mut heap, start + 16_384, false), Ok(start as usize + 8192));
    assert_eq!(sys_brk(&mut heap, start, true), Ok(start as usize));
    // Below the start.
    assert_eq!(sys_brk(&mut heap, 1, true), Ok(start as usize));
    assert_eq!(heap, Heap { start, end: start });
}

#[test]
fn protections_and_lengths_are_checked() {
    assert_eq!(
        protection(PROT_READ | PROT_EXEC),
        Ok(VmaFlags { read: true, write: false, execute: true, shared: false })
    );
    assert_eq!(protection(0x40), Err(Errno::EINVAL));
    // Nothing asked for is nothing given.
    assert_eq!(
        protection(0),
        Ok(VmaFlags { read: false, write: false, execute: false, shared: false })
    );
    assert_eq!(pages_for(1), Ok(PAGE_SIZE));
    assert_eq!(pages_for(PAGE_SIZE), Ok(PAGE_SIZE));
    assert_eq!(pages_for(0), Err(Errno::EINVAL));
    assert_eq!(sys_munmap(1, PAGE_SIZE), Err(Errno::EINVAL));
    assert_eq!(sys_munmap(0x1000, 5), Ok(PAGE_SIZE));
}

#[test]
fn a_refusal_has_its_error() {
    for (error, errno) in [
        (SpaceError::OutOfMemory, Errno::ENOMEM),
        (SpaceError::Backing, Errno::ENOMEM),
        (SpaceError::Unreadable, Errno::EIO),
        (SpaceError::NotUserRange, Errno::EINVAL),
        (SpaceError::BadRange, Errno::EINVAL),
        (SpaceError::NotMapped, Errno::EFAULT),
        (SpaceError::Refused, Errno::EFAULT),
        (SpaceError::PastEnd, Errno::EFAULT),
    ] {
        assert_eq!(refused(error), errno);
        assert_eq!(answered(Err(error)), Err(errno));
    }
    assert_eq!(unmapped(Ok(())), Ok(0));
    assert_eq!(protected(Err(SpaceError::BadRange)), Err(Errno::ENOMEM));
    assert_eq!(protected(Err(SpaceError::NotUserRange)), Err(Errno::ENOMEM));
    assert_eq!(protected(Err(SpaceError::Refused)), Err(Errno::EACCES));
    assert_eq!(protected(Err(SpaceError::OutOfMemory)), Err(Errno::ENOMEM));
}

#[test]
fn a_file_is_mapped_as_it_was_opened() {
    let mut table = standard_streams(0);
    assert_eq!(table.insert(1, false), Ok(3));
    assert_eq!(table.insert(2, false), Ok(4));
    let mut open = vec![
        described(FileType::CharDevice, true, true),
        described(FileType::Regular, true, false),
        described(FileType::Directory, true, false),
    ];
    let request = |fd: i64, prot: u32, flags: u32| MmapRequest {
        addr: 0,
        len: 100,
        prot,
        flags,
        fd,
        offset: 2,
        unit: OffsetUnit::Pages,
    };
    let private = sys_mmap(&table, &open, &request(3, PROT_READ | PROT_WRITE, MAP_PRIVATE), X86);
    assert!(matches!(
        private,
        Ok(Mapping::File { len: 4096, file: 1, offset: 8192, .. })
    ));
    assert_eq!(
        sys_mmap(&table, &open, &request(3, PROT_READ | PROT_WRITE, MAP_SHARED), X86),
        Err(Errno::EACCES)
    );
    assert_eq!(
        sys_mmap(&table, &open, &request(9, PROT_READ, MAP_PRIVATE), X86),
        Err(Errno::EBADF)
    );
    assert_eq!(
        sys_mmap(&table, &open, &request(4, PROT_READ, MAP_PRIVATE), X86),
        Err(Errno::ENODEV)
    );
    open[1].readable = false;
    assert_eq!(
        sys_mmap(&table, &open, &request(3, PROT_READ, MAP_PRIVATE), X86),
        Err(Errno::EACCES)
    );
    // A file sealed against writes is mapped to be read, and stays so.
    open[1] = OpenFile { seals: 8, ..described(FileType::Regular, true, true) };
    assert_eq!(
        sys_mmap(&table, &open, &request(3, PROT_READ | PROT_WRITE, MAP_SHARED), X86),
        Err(Errno::EPERM)
    );
    assert!(matches!(
        sys_mmap(&table, &open, &request(3, PROT_READ, MAP_SHARED), X86),
        Ok(Mapping::File { may_write: false, .. })
    ));
    // A seal that came while the mapping was made takes it away again.
    assert_eq!(
        file_answered(Ok(0x5000), true, 8),
        FileMapped::Undo { at: 0x5000, errno: Errno::EPERM }
    );
    assert_eq!(file_answered(Ok(0x5000), false, 8), FileMapped::Answer(Ok(0x5000)));
    assert_eq!(
        file_answered(Err(SpaceError::OutOfMemory), true, 8),
        FileMapped::Answer(Err(Errno::ENOMEM))
    );
}

#[test]
fn what_is_synced_is_mapped_throughout() {
    let regions = vec![
        Region { start: 0x1000, end: 0x3000 },
        Region { start: 0x3000, end: 0x4000 },
        Region { start: 0x6000, end: 0x7000 },
    ];
    assert_eq!(sys_msync(&regions, 0x1000, 0x3000, MS_SYNC), Ok(0));
    assert_eq!(sys_msync(&regions, 0x2000, 0x3000, MS_SYNC), Err(Errno::ENOMEM));
    assert_eq!(sys_msync(&regions, 0x1000, 0x1000, MS_SYNC | MS_ASYNC), Err(Errno::EINVAL));
    assert_eq!(sys_msync(&regions, 0x1001, 0x1000, MS_SYNC), Err(Errno::EINVAL));
    assert_eq!(sys_msync(&regions, 0x1000, 0x1000, 0x80), Err(Errno::EINVAL));
    assert_eq!(sys_msync(&regions, 0x6000, u64::MAX, MS_ASYNC), Err(Errno::ENOMEM));
}
